use vstd::prelude::*;

use crate::client::forget_before;
use crate::game::{Input, JoinError, MAX_INPUTS_PER_MESSAGE};
use crate::idmap::IdMap;
use crate::ids::{EntityId, PlayerId, TickNum};

verus! {

/// A player's state is delta encoded against a state it acknowledged only
/// while that state is fewer than this many ticks old.
pub const MAX_DIFF_TICKS: u32 = 50;

/// The ticks of `s` strictly decrease: the oldest input comes last.
pub open spec fn ticks_descending(s: Seq<(TickNum, Input)>) -> bool {
    forall|i: int, j: int| #![trigger s[i], s[j]] 0 <= i < j < s.len() ==> s[i].0.0 > s[j].0.0
}

/// Some input of `s` is for the tick `t`.
pub open spec fn has_tick(s: Seq<(TickNum, Input)>, t: TickNum) -> bool {
    exists|i: int| 0 <= i < s.len() && #[trigger] s[i].0 == t
}

/// Stores the input that a player made at tick `tick_num` among the
/// inputs waiting to be run, which are sorted by tick number descending.
/// An input received before for the same tick is kept and the new one
/// ignored; tells whether the input was stored.
pub fn insert_input(inputs: &mut Vec<(TickNum, Input)>, tick_num: TickNum, input: Input) -> (r:
    bool)
    requires
        ticks_descending(old(inputs)@),
    ensures
        ticks_descending(final(inputs)@),
        r == !has_tick(old(inputs)@, tick_num),
        !r ==> final(inputs)@ == old(inputs)@,
        r ==> exists|p: int|
            0 <= p <= old(inputs)@.len() && final(inputs)@ == old(inputs)@.insert(
                p,
                (tick_num, input),
            ),
{
    let ghost s0 = inputs@;
    let n = inputs.len();
    let mut p: usize = 0;
    while p < n && inputs[p].0.0 > tick_num.0
        invariant
            inputs@ == s0,
            n == s0.len(),
            p <= n,
            forall|i: int| 0 <= i < p ==> #[trigger] s0[i].0.0 > tick_num.0,
        decreases n - p,
    {
        p = p + 1;
    }
    if p < n && inputs[p].0.0 == tick_num.0 {
        assert(s0[p as int].0 == tick_num);
        false
    } else {
        proof {
            assert forall|i: int| 0 <= i < s0.len() implies #[trigger] s0[i].0 != tick_num by {
                if i > p {
                    assert(s0[p as int].0.0 > s0[i].0.0);
                }
            }
            s0.insert_ensures(p as int, (tick_num, input));
            let s1 = s0.insert(p as int, (tick_num, input));
            assert forall|j: int| p < j < s1.len() implies s1[j] == s0[j - 1] by {
                assert(s1[(j - 1) + 1] == s0[j - 1]);
            }
            assert forall|i: int, j: int|
                #![trigger s1[i], s1[j]]
                0 <= i < j < s1.len() implies s1[i].0.0 > s1[j].0.0 by {
                if j < p {
                    assert(s0[i].0.0 > s0[j].0.0);
                } else if j == p {
                    assert(s0[i].0.0 > tick_num.0);
                } else if i < p {
                    if j - 1 > p {
                        assert(s0[p as int].0.0 > s0[j - 1].0.0);
                    }
                    assert(s0[i].0.0 > tick_num.0);
                } else if i == p {
                    if j - 1 > p {
                        assert(s0[p as int].0.0 > s0[j - 1].0.0);
                    }
                } else {
                    assert(s0[i - 1].0.0 > s0[j - 1].0.0);
                }
            }
        }
        inputs.insert(p, (tick_num, input));
        true
    }
}

/// The largest tick number among `inputs`, if any.
pub fn max_input_num(inputs: &Vec<(TickNum, Input)>) -> (r: Option<TickNum>)
    ensures
        match r {
            None => inputs@.len() == 0,
            Some(t) => has_tick(inputs@, t) && forall|i: int|
                0 <= i < inputs@.len() ==> (#[trigger] inputs@[i]).0.0 <= t.0,
        },
{
    let n = inputs.len();
    let mut best: Option<TickNum> = None;
    let mut i: usize = 0;
    while i < n
        invariant
            n == inputs@.len(),
            i <= n,
            match best {
                None => i == 0,
                Some(t) => has_tick(inputs@, t) && forall|j: int|
                    0 <= j < i ==> (#[trigger] inputs@[j]).0.0 <= t.0,
            },
        decreases n - i,
    {
        let t = inputs[i].0;
        best = match best {
            None => Some(t),
            Some(b) => if t.0 > b.0 {
                Some(t)
            } else {
                Some(b)
            },
        };
        i = i + 1;
    }
    best
}

/// An input received for tick `tick_num` is buffered only when the
/// server has already reached that tick and no input at or after it has
/// been run for the player.
pub fn is_new_input(tick_num: TickNum, game_tick_num: TickNum, last_input_num: Option<
    TickNum,
>) -> (r: bool)
    ensures
        r == (tick_num.0 <= game_tick_num.0 && match last_input_num {
            Some(last) => tick_num.0 > last.0,
            None => true,
        }),
{
    if tick_num.0 > game_tick_num.0 {
        return false;
    }
    match last_input_num {
        Some(last) => tick_num.0 > last.0,
        None => true,
    }
}

/// The tick to delta encode a player's next state against: the tick the
/// player last acknowledged, when that is the oldest state still
/// remembered as sent and is fewer than `MAX_DIFF_TICKS` ticks behind
/// `tick_num`; otherwise `None`, and the state is sent from scratch.
pub fn diff_base(last_ack_tick: Option<TickNum>, oldest_sent_tick: Option<TickNum>, tick_num: TickNum) -> (r:
    Option<TickNum>)
    ensures
        r == diff_base_spec(last_ack_tick, oldest_sent_tick, tick_num),
{
    match (last_ack_tick, oldest_sent_tick) {
        (Some(ack), Some(sent)) => {
            if ack.0 == sent.0 && (ack.0 as u64) + (MAX_DIFF_TICKS as u64) > tick_num.0 as u64 {
                Some(ack)
            } else {
                None
            }
        },
        _ => None,
    }
}

/// The id for a player joining a game: one above the largest id in use,
/// or 1 in an empty game.
pub fn next_player_id<P>(players: &IdMap<PlayerId, P>) -> (r: PlayerId)
    requires
        forall|k: PlayerId| #[trigger] players@.contains_key(k) ==> k.0 < u32::MAX,
    ensures
        !players@.contains_key(r),
        forall|k: PlayerId| #[trigger] players@.contains_key(k) ==> k.0 < r.0,
        players@ == Map::<PlayerId, P>::empty() ==> r.0 == 1,
        players@ != Map::<PlayerId, P>::empty() ==> players@.contains_key(PlayerId((r.0 - 1) as u32)),
{
    match players.last_key() {
        Some(max_player_id) => max_player_id.next(),
        None => PlayerId(1),
    }
}

/// The first entity id after those in use: one above the largest, or 0
/// when there is none.
pub fn first_free_entity_id<E>(entities: &IdMap<EntityId, E>) -> (r: EntityId)
    requires
        forall|k: EntityId| #[trigger] entities@.contains_key(k) ==> k.0 < u32::MAX,
    ensures
        forall|k: EntityId| #[trigger] entities@.contains_key(k) ==> k.0 < r.0,
        entities@ == Map::<EntityId, E>::empty() ==> r.0 == 0,
        entities@ != Map::<EntityId, E>::empty() ==> entities@.contains_key(EntityId((r.0 - 1) as u32)),
{
    match entities.last_key() {
        Some(max_id) => max_id.next(),
        None => EntityId(0),
    }
}

/// What became of an acknowledgment of a tick that a player received.
#[derive(Debug, Clone, Copy, PartialEq, Eq, Structural)]
pub enum AckOutcome {
    /// The tick lies ahead of the game, which no correct client sends.
    AheadOfGame,
    /// The tick is newer than any acknowledged before and becomes the base
    /// of delta encoding.
    Accepted,
    /// A newer tick was acknowledged before.
    Stale,
}

/// Handles a player's acknowledgment of tick `ack_num` while the game is at
/// `game_tick_num`. A new acknowledgment becomes the player's last, and the
/// states sent for earlier ticks are forgotten: the server will never again
/// delta encode against them.
pub fn handle_ack_tick<S>(
    last_ack_tick: &mut Option<TickNum>,
    last_sent: &mut IdMap<TickNum, S>,
    ack_num: TickNum,
    game_tick_num: TickNum,
) -> (r: AckOutcome)
    ensures
        r == if ack_num.0 > game_tick_num.0 {
            AckOutcome::AheadOfGame
        } else if match *old(last_ack_tick) {
            Some(last) => ack_num.0 > last.0,
            None => true,
        } {
            AckOutcome::Accepted
        } else {
            AckOutcome::Stale
        },
        r == AckOutcome::Accepted ==> {
            &&& *final(last_ack_tick) == Some(ack_num)
            &&& final(last_sent)@ == old(last_sent)@.restrict(
                Set::new(|k: TickNum| k.0 >= ack_num.0),
            )
        },
        r != AckOutcome::Accepted ==> {
            &&& *final(last_ack_tick) == *old(last_ack_tick)
            &&& final(last_sent)@ == old(last_sent)@
        },
        *old(last_ack_tick) matches Some(l) ==> (*final(last_ack_tick) matches Some(f) && l.0
            <= f.0),
{
    if ack_num.0 > game_tick_num.0 {
        return AckOutcome::AheadOfGame;
    }
    let newer = match *last_ack_tick {
        Some(last) => ack_num.0 > last.0,
        None => true,
    };
    if newer {
        *last_ack_tick = Some(ack_num);
        forget_before(last_sent, ack_num);
        AckOutcome::Accepted
    } else {
        AckOutcome::Stale
    }
}

/// Once a player's acknowledgment of a state that the server still
/// remembers is accepted, that state is the oldest one remembered and the
/// tick acknowledged last, so the next state sent to the player is delta
/// encoded against it, unless it is `MAX_DIFF_TICKS` or more ticks old.
pub proof fn lemma_acked_state_becomes_base<S>(
    last_sent: Map<TickNum, S>,
    ack_num: TickNum,
    tick_num: TickNum,
)
    requires
        last_sent.contains_key(ack_num),
    ensures
        ({
            let kept = last_sent.restrict(Set::new(|k: TickNum| k.0 >= ack_num.0));
            &&& kept.contains_key(ack_num)
            &&& forall|k: TickNum| #[trigger] kept.contains_key(k) ==> ack_num.0 <= k.0
            &&& diff_base_spec(Some(ack_num), Some(ack_num), tick_num) == if ack_num.0
                + MAX_DIFF_TICKS > tick_num.0 {
                Some(ack_num)
            } else {
                None
            }
        }),
{
}

/// The tick to delta encode against, as `diff_base` decides it.
pub open spec fn diff_base_spec(
    last_ack_tick: Option<TickNum>,
    oldest_sent_tick: Option<TickNum>,
    tick_num: TickNum,
) -> Option<TickNum> {
    match (last_ack_tick, oldest_sent_tick) {
        (Some(ack), Some(sent)) => if ack == sent && ack.0 + MAX_DIFF_TICKS > tick_num.0 {
            Some(ack)
        } else {
            None
        },
        _ => None,
    }
}

/// Keeps the memory of sent states from growing past `MAX_DIFF_TICKS`
/// entries by forgetting the oldest; tells whether one was forgotten.
pub fn prune_sent<S>(last_sent: &mut IdMap<TickNum, S>) -> (r: bool)
    ensures
        r == (old(last_sent)@.len() > MAX_DIFF_TICKS),
        r ==> final(last_sent)@ == old(last_sent)@.remove(old(last_sent).entries()[0].0),
        r ==> old(last_sent)@.contains_key(old(last_sent).entries()[0].0),
        r ==> forall|k: TickNum| #[trigger]
            old(last_sent)@.contains_key(k) ==> old(last_sent).entries()[0].0.0 <= k.0,
        !r ==> final(last_sent)@ == old(last_sent)@,
{
    if last_sent.len() > MAX_DIFF_TICKS as usize {
        let oldest = match last_sent.first() {
            Some(e) => e.0,
            None => {
                return false;
            },
        };
        last_sent.remove(&oldest);
        true
    } else {
        false
    }
}

/// A message may carry at least one and at most `MAX_INPUTS_PER_MESSAGE`
/// inputs.
pub fn valid_input_count(n: usize) -> (r: bool)
    ensures
        r == (0 < n <= MAX_INPUTS_PER_MESSAGE),
{
    0 < n && n <= MAX_INPUTS_PER_MESSAGE
}

/// What became of one input that a player sent.
#[derive(Debug, Clone, Copy, PartialEq, Eq, Structural)]
pub enum InputReceipt {
    /// The input is for a tick the server has not reached.
    Ahead,
    /// The input is too old to be run.
    TooOld,
    /// An input at or after its tick was already run for the player.
    AlreadyRun,
    /// An input for the same tick is already waiting.
    Duplicate,
    /// The input now waits to be run.
    Stored,
}

/// Receives the input that a player made at tick `tick_num`, checked in
/// the order: ahead of the game, too old (as the caller measured it in
/// game time), already run, already waiting; only an input that passes all
/// of these is stored, in tick order, among the waiting ones.
pub fn receive_input(
    inputs: &mut Vec<(TickNum, Input)>,
    last_input_num: Option<TickNum>,
    game_tick_num: TickNum,
    tick_num: TickNum,
    input: Input,
    too_old: bool,
) -> (r: InputReceipt)
    requires
        ticks_descending(old(inputs)@),
    ensures
        ticks_descending(final(inputs)@),
        r == if tick_num.0 > game_tick_num.0 {
            InputReceipt::Ahead
        } else if too_old {
            InputReceipt::TooOld
        } else if match last_input_num {
            Some(last) => tick_num.0 <= last.0,
            None => false,
        } {
            InputReceipt::AlreadyRun
        } else if has_tick(old(inputs)@, tick_num) {
            InputReceipt::Duplicate
        } else {
            InputReceipt::Stored
        },
        r != InputReceipt::Stored ==> final(inputs)@ == old(inputs)@,
        r == InputReceipt::Stored ==> exists|p: int|
            0 <= p <= old(inputs)@.len() && final(inputs)@ == old(inputs)@.insert(
                p,
                (tick_num, input),
            ),
{
    if tick_num.0 > game_tick_num.0 {
        return InputReceipt::Ahead;
    }
    if too_old {
        return InputReceipt::TooOld;
    }
    if !is_new_input(tick_num, game_tick_num, last_input_num) {
        return InputReceipt::AlreadyRun;
    }
    if insert_input(inputs, tick_num, input) {
        InputReceipt::Stored
    } else {
        InputReceipt::Duplicate
    }
}

/// Takes the inputs that are due in this tick: the waiting inputs for
/// ticks up to `due_until`, oldest first, which leave the waiting ones.
/// When none is due, the last input run is run again, for the tick after
/// its own; the caller remembers the last input it returns.
pub fn take_tick_inputs(
    inputs: &mut Vec<(TickNum, Input)>,
    due_until: Option<TickNum>,
    last_input: Option<(TickNum, Input)>,
) -> (r: Vec<(TickNum, Input)>)
    requires
        ticks_descending(old(inputs)@),
        last_input matches Some(l) ==> l.0.0 < u32::MAX,
    ensures
        ticks_descending(final(inputs)@),
        final(inputs)@ == old(inputs)@.take(final(inputs)@.len() as int),
        forall|i: int|
            0 <= i < final(inputs)@.len() ==> !is_due(#[trigger] old(inputs)@[i].0, due_until),
        forall|i: int|
            final(inputs)@.len() <= i < old(inputs)@.len() ==> is_due(
                #[trigger] old(inputs)@[i].0,
                due_until,
            ),
        final(inputs)@.len() < old(inputs)@.len() ==> r@ == old(inputs)@.skip(
            final(inputs)@.len() as int,
        ).reverse(),
        final(inputs)@.len() == old(inputs)@.len() ==> r@ == match last_input {
            Some(l) => seq![(TickNum((l.0.0 + 1) as u32), l.1)],
            None => Seq::empty(),
        },
        forall|i: int, j: int| #![trigger r@[i], r@[j]] 0 <= i < j < r@.len() ==> r@[i].0.0 < r@[j].0.0,
        final(inputs)@.len() < old(inputs)@.len() ==> forall|i: int|
            0 <= i < final(inputs)@.len() ==> (#[trigger] final(inputs)@[i]).0.0 > r@.last().0.0,
{
    let ghost s0 = inputs@;
    let mut r: Vec<(TickNum, Input)> = Vec::new();
    loop
        invariant
            ticks_descending(s0),
            inputs@ == s0.take(inputs@.len() as int),
            inputs@.len() <= s0.len(),
            forall|i: int| inputs@.len() <= i < s0.len() ==> is_due(#[trigger] s0[i].0, due_until),
            r@ == s0.skip(inputs@.len() as int).reverse(),
        ensures
            ticks_descending(s0),
            inputs@ == s0.take(inputs@.len() as int),
            inputs@.len() <= s0.len(),
            forall|i: int| inputs@.len() <= i < s0.len() ==> is_due(#[trigger] s0[i].0, due_until),
            forall|i: int| 0 <= i < inputs@.len() ==> !is_due(#[trigger] s0[i].0, due_until),
            r@ == s0.skip(inputs@.len() as int).reverse(),
        decreases inputs@.len(),
    {
        let n = inputs.len();
        if n == 0 {
            break;
        }
        let oldest = inputs[n - 1].0;
        let due = match due_until {
            Some(d) => oldest.0 <= d.0,
            None => false,
        };
        if !due {
            proof {
                assert forall|i: int| 0 <= i < n implies !is_due(#[trigger] s0[i].0, due_until) by {
                    if i < n - 1 {
                        assert(s0[i].0.0 > s0[n - 1].0.0);
                    }
                }
            }
            break;
        }
        let e = inputs.pop().unwrap();
        proof {
            assert(s0.skip(n - 1) =~= seq![e].add(s0.skip(n as int)));
            assert(s0.skip(n - 1).reverse() =~= s0.skip(n as int).reverse().push(e));
            assert(inputs@ =~= s0.take(n - 1));
        }
        r.push(e);
    }
    if r.len() == 0 {
        if let Some(l) = last_input {
            r.push((TickNum(l.0.0 + 1), l.1));
        }
    }
    proof {
        if inputs@.len() == s0.len() {
            assert(s0.skip(s0.len() as int) =~= Seq::<(TickNum, Input)>::empty());
        } else {
            let k = inputs@.len() as int;
            assert forall|i: int, j: int| #![trigger r@[i], r@[j]] 0 <= i < j < r@.len() implies r@[i].0.0
                < r@[j].0.0 by {
                assert(r@[i] == s0[s0.len() - 1 - i]);
                assert(r@[j] == s0[s0.len() - 1 - j]);
            }
            assert(r@.last() == s0[k]);
            assert forall|i: int| 0 <= i < k implies (#[trigger] inputs@[i]).0.0 > r@.last().0.0 by {
                assert(inputs@[i] == s0[i]);
            }
        }
    }
    r
}

/// The tick `t` is due when `due_until` is some tick at or after it.
pub open spec fn is_due(t: TickNum, due_until: Option<TickNum>) -> bool {
    match due_until {
        Some(d) => t.0 <= d.0,
        None => false,
    }
}

/// The distance between two ticks.
pub open spec fn tick_distance(a: TickNum, b: TickNum) -> int {
    if a.0 >= b.0 {
        a.0 - b.0
    } else {
        b.0 - a.0
    }
}

/// The index of the first tick among `ticks` that is closest to `target`:
/// the state in which a player is taken to have made an input.
pub fn closest_tick_index(ticks: &Vec<TickNum>, target: TickNum) -> (r: Option<usize>)
    ensures
        match r {
            None => ticks@.len() == 0,
            Some(i) => {
                &&& i < ticks@.len()
                &&& forall|j: int|
                    0 <= j < ticks@.len() ==> tick_distance(ticks@[i as int], target)
                        <= tick_distance(#[trigger] ticks@[j], target)
                &&& forall|j: int|
                    0 <= j < i ==> tick_distance(ticks@[i as int], target) < tick_distance(
                        #[trigger] ticks@[j],
                        target,
                    )
            },
        },
{
    let n = ticks.len();
    if n == 0 {
        return None;
    }
    let mut best: usize = 0;
    let mut best_dist: u32 = if ticks[0].0 >= target.0 {
        ticks[0].0 - target.0
    } else {
        target.0 - ticks[0].0
    };
    let mut i: usize = 1;
    while i < n
        invariant
            n == ticks@.len(),
            1 <= i <= n,
            best < i,
            best_dist == tick_distance(ticks@[best as int], target),
            forall|j: int| 0 <= j < i ==> best_dist <= tick_distance(#[trigger] ticks@[j], target),
            forall|j: int| 0 <= j < best ==> best_dist < tick_distance(#[trigger] ticks@[j], target),
        decreases n - i,
    {
        let t = ticks[i].0;
        let d = if t >= target.0 {
            t - target.0
        } else {
            target.0 - t
        };
        if d < best_dist {
            best = i;
            best_dist = d;
        }
        i = i + 1;
    }
    Some(best)
}

/// A game is full when it holds the most players it may.
pub fn is_full(num_players: usize, max_num_players: usize) -> (r: bool)
    requires
        num_players <= max_num_players,
    ensures
        r == (num_players == max_num_players),
{
    num_players == max_num_players
}

/// The games, by index, that have room for another player.
pub fn non_full_games(num_players: &Vec<usize>, max_num_players: usize) -> (r: Vec<usize>)
    requires
        forall|i: int| 0 <= i < num_players@.len() ==> #[trigger] num_players@[i] <= max_num_players,
    ensures
        forall|k: int| 0 <= k < r@.len() ==> (#[trigger] r@[k]) < num_players@.len(),
        forall|k: int| 0 <= k < r@.len() ==> num_players@[#[trigger] r@[k] as int] < max_num_players,
        forall|k: int, l: int| 0 <= k < l < r@.len() ==> #[trigger] r@[k] < #[trigger] r@[l],
        forall|i: int|
            0 <= i < num_players@.len() && #[trigger] num_players@[i] < max_num_players ==> r@.contains(
                i as usize,
            ),
{
    let n = num_players.len();
    let mut r: Vec<usize> = Vec::new();
    let mut i: usize = 0;
    while i < n
        invariant
            n == num_players@.len(),
            i <= n,
            forall|i: int| 0 <= i < n ==> #[trigger] num_players@[i] <= max_num_players,
            forall|k: int| 0 <= k < r@.len() ==> (#[trigger] r@[k]) < i,
            forall|k: int| 0 <= k < r@.len() ==> num_players@[#[trigger] r@[k] as int] < max_num_players,
            forall|k: int, l: int| 0 <= k < l < r@.len() ==> #[trigger] r@[k] < #[trigger] r@[l],
            forall|j: int|
                0 <= j < i && #[trigger] num_players@[j] < max_num_players ==> r@.contains(j as usize),
        decreases n - i,
    {
        if !is_full(num_players[i], max_num_players) {
            let ghost r0 = r@;
            r.push(i);
            proof {
                assert forall|j: int|
                    0 <= j < i && #[trigger] num_players@[j] < max_num_players implies r@.contains(
                    j as usize,
                ) by {
                    assert(r0.contains(j as usize));
                    let k = choose|k: int| 0 <= k < r0.len() && r0[k] == j as usize;
                    assert(r@[k] == r0[k]);
                }
                assert(r@[r@.len() - 1] == i);
            }
        }
        i = i + 1;
    }
    r
}

/// The game a joining player goes to.
#[derive(Debug, Clone, Copy, PartialEq, Eq, Structural)]
pub enum JoinTarget {
    /// The game of this index.
    Existing(usize),
    /// A game created for it.
    New,
}

/// Decides where a player who asks to join goes. `requested` is the game it
/// named, if any: the index of that game, or `None` for an unknown game.
/// `picked` is the game chosen at random among those with room, when the
/// player named none: `None` only when every game is full. A new game is
/// made only while there are fewer than `max_num_games`.
pub fn join_target(
    num_players: &Vec<usize>,
    max_num_players: usize,
    max_num_games: usize,
    requested: Option<Option<usize>>,
    picked: Option<usize>,
) -> (r: Result<JoinTarget, JoinError>)
    requires
        forall|i: int| 0 <= i < num_players@.len() ==> #[trigger] num_players@[i] <= max_num_players,
        num_players@.len() <= max_num_games,
        requested matches Some(Some(i)) ==> i < num_players@.len(),
        picked matches Some(i) ==> i < num_players@.len() && num_players@[i as int] < max_num_players,
        requested is None && picked is None ==> forall|i: int|
            0 <= i < num_players@.len() ==> #[trigger] num_players@[i] == max_num_players,
    ensures
        r == match requested {
            Some(Some(i)) => if num_players@[i as int] == max_num_players {
                Err(JoinError::FullGame)
            } else {
                Ok(JoinTarget::Existing(i))
            },
            Some(None) => Err(JoinError::InvalidGameId),
            None => match picked {
                Some(i) => Ok(JoinTarget::Existing(i)),
                None => if num_players@.len() == max_num_games {
                    Err(JoinError::FullGame)
                } else {
                    Ok(JoinTarget::New)
                },
            },
        },
{
    match requested {
        Some(Some(i)) => {
            if is_full(num_players[i], max_num_players) {
                Err(JoinError::FullGame)
            } else {
                Ok(JoinTarget::Existing(i))
            }
        },
        Some(None) => Err(JoinError::InvalidGameId),
        None => match picked {
            Some(i) => Ok(JoinTarget::Existing(i)),
            None => {
                if num_players.len() == max_num_games {
                    Err(JoinError::FullGame)
                } else {
                    Ok(JoinTarget::New)
                }
            },
        },
    }
}

} // verus!
