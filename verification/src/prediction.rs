use vstd::prelude::*;

use crate::game::Input;
use crate::idmap::{entries_map, keys_increasing, lemma_entries_map_index, lemma_entries_map_take_push, IdMap};
use crate::ids::{EntityId, IdKey, PlayerId, TickNum};

verus! {

/// What prediction reads of an entity: whose it is.
#[derive(Debug, Clone, Copy, PartialEq, Eq, Structural)]
pub enum EntityClass {
    /// A player's own entity.
    Player(PlayerId),
    /// A bullet, with the player who shot it, if any.
    Bullet(Option<PlayerId>),
    /// Anything else, which no client predicts.
    Other,
}

/// An entity together with what prediction reads of it.
#[derive(Debug, Clone, Copy)]
pub struct Tagged<E> {
    pub class: EntityClass,
    pub body: E,
}

/// A game state as prediction sees it: the rest of the world, opaque, the
/// tick number, and the entities by id.
pub struct SimState<W, E> {
    pub world: W,
    pub tick_num: TickNum,
    pub entities: IdMap<EntityId, Tagged<E>>,
}

/// A game state received from the server, with the last input of ours
/// that the server had run when it produced the state.
pub struct ReceivedState<G> {
    pub game: G,
    pub my_last_input: Option<TickNum>,
}

/// A predicted tick: the entities predicted for it, and the input that
/// led to it.
pub struct Record<E> {
    pub entities: IdMap<EntityId, Tagged<E>>,
    pub my_last_input: Input,
}

/// The player `me` predicts the entity: its own player entity and the
/// bullets it shot.
pub open spec fn is_predicted_spec(class: EntityClass, me: PlayerId) -> bool {
    match class {
        EntityClass::Player(owner) => owner == me,
        EntityClass::Bullet(owner) => owner == Some(me),
        EntityClass::Other => false,
    }
}

/// The entities of `m` that the player `me` predicts.
pub open spec fn predicted_part<E>(m: Map<EntityId, Tagged<E>>, me: PlayerId) -> Map<
    EntityId,
    Tagged<E>,
> {
    Map::new(|k: EntityId| m.contains_key(k) && is_predicted_spec(m[k].class, me), |k: EntityId| m[k])
}

/// The largest id among the entities of `m`.
pub open spec fn max_entity_id<E>(m: Map<EntityId, Tagged<E>>) -> EntityId {
    choose|k: EntityId| m.contains_key(k) && forall|j: EntityId| #[trigger] m.contains_key(j) ==> j.0 <= k.0
}

/// The id that a new predicted entity gets in `m`: one above the largest,
/// or 1 when there is none; `None` when the ids are used up.
pub open spec fn new_entity_id<E>(m: Map<EntityId, Tagged<E>>) -> Option<EntityId> {
    if m == Map::<EntityId, Tagged<E>>::empty() {
        Some(EntityId(1))
    } else if max_entity_id(m).0 < u32::MAX {
        Some(EntityId((max_entity_id(m).0 + 1) as u32))
    } else {
        None
    }
}

/// `m` with the predicted entity `e` added under a new id.
pub open spec fn with_entity<E>(m: Map<EntityId, Tagged<E>>, e: Tagged<E>) -> Map<EntityId, Tagged<E>> {
    match new_entity_id(m) {
        Some(k) => m.insert(k, e),
        None => m,
    }
}

/// `m` with the predicted entities `s` added one after the other.
pub open spec fn with_entities<E>(m: Map<EntityId, Tagged<E>>, s: Seq<Tagged<E>>) -> Map<
    EntityId,
    Tagged<E>,
>
    decreases s.len(),
{
    if s.len() == 0 {
        m
    } else {
        with_entity(with_entities(m, s.drop_last()), s.last())
    }
}

/// The player `me` predicts an entity of this class.
pub fn is_predicted(class: &EntityClass, me: PlayerId) -> (r: bool)
    ensures
        r == is_predicted_spec(*class, me),
{
    match class {
        EntityClass::Player(owner) => owner.0 == me.0,
        EntityClass::Bullet(owner) => match owner {
            Some(o) => o.0 == me.0,
            None => false,
        },
        EntityClass::Other => false,
    }
}

/// The entities of `entities` that the player `me` predicts.
pub fn extract_predicted_entities<E: Copy>(
    entities: &IdMap<EntityId, Tagged<E>>,
    me: PlayerId,
) -> (r: IdMap<EntityId, Tagged<E>>)
    ensures
        r@ == predicted_part(entities@, me),
{
    let s = entities.as_slice();
    let n = s.len();
    let mut r: IdMap<EntityId, Tagged<E>> = IdMap::new();
    let mut i: usize = 0;
    while i < n
        invariant
            n == s@.len(),
            i <= n,
            keys_increasing(s@),
            r@ == predicted_part(entries_map(s@.take(i as int)), me),
        decreases n - i,
    {
        let e = s[i];
        proof {
            lemma_entries_map_take_push(s@, i as int);
        }
        if is_predicted(&e.1.class, me) {
            r.insert(e.0, e.1);
        }
        proof {
            assert(r@ =~= predicted_part(entries_map(s@.take(i + 1)), me));
        }
        i = i + 1;
    }
    proof {
        assert(s@.take(n as int) =~= s@);
    }
    r
}

/// Puts `entities` into `target`, replacing those with the same ids.
pub fn load_entities<E: Copy>(
    target: &mut IdMap<EntityId, Tagged<E>>,
    entities: &IdMap<EntityId, Tagged<E>>,
)
    ensures
        final(target)@ == old(target)@.union_prefer_right(entities@),
{
    let ghost m0 = target@;
    let s = entities.as_slice();
    let n = s.len();
    let mut i: usize = 0;
    while i < n
        invariant
            n == s@.len(),
            i <= n,
            keys_increasing(s@),
            target@ == m0.union_prefer_right(entries_map(s@.take(i as int))),
        decreases n - i,
    {
        let e = s[i];
        proof {
            lemma_entries_map_take_push(s@, i as int);
        }
        target.insert(e.0, e.1);
        proof {
            assert(target@ =~= m0.union_prefer_right(entries_map(s@.take(i + 1))));
        }
        i = i + 1;
    }
    proof {
        assert(s@.take(n as int) =~= s@);
    }
}

/// Adds a predicted entity under a new id: one above the largest id in
/// use, or 1 when there is none. When every id is taken the entity is left
/// out; tells whether it was added.
pub fn add_predicted_entity<E: Copy>(entities: &mut IdMap<EntityId, Tagged<E>>, entity: Tagged<E>) -> (r:
    bool)
    ensures
        final(entities)@ == with_entity(old(entities)@, entity),
        r == new_entity_id(old(entities)@) is Some,
{
    let ghost m0 = entities@;
    match entities.last_key() {
        None => {
            entities.insert(EntityId(1), entity);
            true
        },
        Some(k) => {
            proof {
                let c = max_entity_id(m0);
                assert(m0.contains_key(c) && forall|j: EntityId| #[trigger]
                    m0.contains_key(j) ==> j.0 <= c.0);
                assert(c.0 <= k.0 && k.0 <= c.0);
                assert(c == k);
                assert(m0 != Map::<EntityId, Tagged<E>>::empty()) by {
                    assert(m0.contains_key(k));
                }
            }
            if k.0 < u32::MAX {
                entities.insert(EntityId(k.0 + 1), entity);
                true
            } else {
                false
            }
        },
    }
}

/// `s` with its tick number set to `t`.
pub open spec fn set_tick<W, E>(s: SimState<W, E>, t: TickNum) -> SimState<W, E> {
    SimState { world: s.world, tick_num: t, entities: s.entities }
}

/// Running the input `input` of the player `me` on the state `s_in` with
/// the simulation `run` may give the state `s_out`, the entities that the
/// simulation spawned being added as predicted entities, and `events`.
pub open spec fn runs<W, E, V, FR>(
    run: FR,
    s_in: SimState<W, E>,
    me: PlayerId,
    input: Input,
    s_out: SimState<W, E>,
    events: Seq<V>,
) -> bool where
    FR: Fn(SimState<W, E>, PlayerId, Input) -> (SimState<W, E>, Vec<Tagged<E>>, Vec<V>),
 {
    exists|out: (SimState<W, E>, Vec<Tagged<E>>, Vec<V>)|
        #[trigger] call_ensures(run, (s_in, me, input), out) && out.0.world == s_out.world
            && out.0.tick_num == s_out.tick_num && s_out.entities@ == with_entities(
            out.0.entities@,
            out.1@,
        ) && events == out.2@
}

/// Runs one input with the simulation `run`, and adds the entities that
/// it spawned as predicted entities.
fn run_step<W, E: Copy, V, FR>(run: &FR, s_in: SimState<W, E>, me: PlayerId, input: Input) -> (r: (
    SimState<W, E>,
    Vec<V>,
)) where
    FR: Fn(SimState<W, E>, PlayerId, Input) -> (SimState<W, E>, Vec<Tagged<E>>, Vec<V>),

    requires
        call_requires(*run, (s_in, me, input)),
    ensures
        runs(*run, s_in, me, input, r.0, r.1@),
{
    let ghost g_in = s_in;
    let out = run(s_in, me, input);
    let ghost g = out;
    let (mut s, new, events) = out;
    let n = new.len();
    let mut i: usize = 0;
    while i < n
        invariant
            n == new@.len(),
            i <= n,
            new@ == g.1@,
            s.world == g.0.world,
            s.tick_num == g.0.tick_num,
            s.entities@ == with_entities(g.0.entities@, new@.take(i as int)),
        decreases n - i,
    {
        proof {
            assert(new@.take(i + 1).drop_last() =~= new@.take(i as int));
        }
        add_predicted_entity(&mut s.entities, new[i]);
        i = i + 1;
    }
    proof {
        assert(new@.take(n as int) =~= new@);
        assert(call_ensures(*run, (g_in, me, input), g));
    }
    (s, events)
}

/// `t` is the largest key of `log`.
pub open spec fn is_max_key<V>(log: Map<TickNum, V>, t: TickNum) -> bool {
    log.contains_key(t) && forall|k: TickNum| #[trigger] log.contains_key(k) ==> k.0 <= t.0
}

/// The log is thrown away when it holds ticks and `tick_num` is not the
/// last of them.
pub open spec fn log_is_reset<V>(log: Map<TickNum, V>, tick_num: TickNum) -> bool {
    log != Map::<TickNum, V>::empty() && !is_max_key(log, tick_num)
}

/// The tick after `t`.
pub open spec fn next_tick(t: TickNum) -> TickNum {
    TickNum((t.0 + 1) as u32)
}

/// The last input of ours that a received state has run, if any.
pub open spec fn acknowledged_input<G>(server_state: Option<ReceivedState<G>>) -> Option<TickNum> {
    match server_state {
        Some(st) => st.my_last_input,
        None => None,
    }
}

/// The log once it has been reset, if it had to be, for `tick_num`.
pub open spec fn log_after_reset<V>(log: Map<TickNum, V>, tick_num: TickNum) -> Map<TickNum, V> {
    if log_is_reset(log, tick_num) {
        Map::<TickNum, V>::empty()
    } else {
        log
    }
}

/// Client-side prediction: a log of the entities predicted for recent
/// ticks from our own inputs, corrected whenever the server's state for a
/// tick arrives, and the state from which the next tick is predicted.
pub struct Prediction<W, E> {
    my_player_id: PlayerId,
    log: IdMap<TickNum, Record<E>>,
    last_server_state_scratch: Option<SimState<W, E>>,
}

/// The ticks of the log of `p` that survive recording an input for
/// `tick_num`: after a reset, those above the acknowledged input, if any.
pub open spec fn kept_ticks<W, E>(
    p: Prediction<W, E>,
    tick_num: TickNum,
    server_state: Option<ReceivedState<SimState<W, E>>>,
) -> Set<TickNum> {
    let log1 = log_after_reset(p.log(), tick_num);
    match acknowledged_input(server_state) {
        Some(t) => log1.dom().filter(|k: TickNum| k.0 > t.0),
        None => log1.dom(),
    }
}

/// Recording an input for `tick_num` runs a prediction: a server state
/// arrives with it, or one was received before and the log is kept.
pub open spec fn predicts<W, E>(
    p: Prediction<W, E>,
    tick_num: TickNum,
    server_state: Option<ReceivedState<SimState<W, E>>>,
) -> bool {
    acknowledged_input(server_state) is Some || (!log_is_reset(p.log(), tick_num)
        && p.has_scratch())
}

/// The scratch state once the log has been reset, if it had to be.
pub open spec fn scratch_after_reset<W, E>(p: Prediction<W, E>, tick_num: TickNum) -> Option<
    SimState<W, E>,
> {
    if log_is_reset(p.log(), tick_num) {
        None
    } else {
        p.scratch()
    }
}

/// The correction and replay when a server state `game` arrives that ran
/// our input `a`, from the log `log1` to the log `log2` whose entries, in
/// order, are `es`: the prediction for `a + 1`, if logged, was corrected by
/// `correct` against `game`, which also told whether to `replay`. On a
/// replay, the predictions after the corrected one were run again in
/// order, through the `states`, from `game` loaded with the corrected
/// entities; without one, the other predictions are unchanged. `base` is
/// the state to predict from: the last of the `states`, or `game`.
pub open spec fn corrected<W, E, V, FC, FR>(
    log1: Map<TickNum, Record<E>>,
    log2: Map<TickNum, Record<E>>,
    es: Seq<(TickNum, Record<E>)>,
    game: SimState<W, E>,
    a: TickNum,
    me: PlayerId,
    correct: FC,
    run: FR,
    replay: bool,
    states: Seq<SimState<W, E>>,
    evss: Seq<Seq<V>>,
    base: SimState<W, E>,
) -> bool where
    FC: Fn(PlayerId, IdMap<EntityId, Tagged<E>>, &SimState<W, E>) -> (IdMap<EntityId, Tagged<E>>, bool),
    FR: Fn(SimState<W, E>, PlayerId, Input) -> (SimState<W, E>, Vec<Tagged<E>>, Vec<V>),
 {
    let c = next_tick(a);
    &&& log1.contains_key(c) ==> call_ensures(
        correct,
        (me, log1[c].entities, &game),
        (log2[c].entities, replay),
    )
    &&& !log1.contains_key(c) ==> !replay
    &&& replay ==> {
        &&& 1 <= es.len()
        &&& es[0].0 == c
        &&& states.len() == es.len()
        &&& evss.len() == es.len()
        &&& states[0].world == game.world
        &&& states[0].tick_num == game.tick_num
        &&& states[0].entities@ == game.entities@.union_prefer_right(es[0].1.entities@)
        &&& forall|j: int|
            #![trigger states[j]]
            1 <= j < es.len() ==> runs(
                run,
                set_tick(states[j - 1], es[j].0),
                me,
                es[j].1.my_last_input,
                states[j],
                evss[j],
            ) && es[j].1.entities@ == predicted_part(states[j].entities@, me)
        &&& base == states[es.len() - 1]
    }
    &&& !replay ==> {
        &&& base == game
        &&& forall|k: TickNum| #[trigger]
            log2.contains_key(k) && k != c ==> log2[k].entities == log1[k].entities
    }
}

/// The prediction of a tick from the state `base`, the kept predictions
/// being `es` in order: `base`, loaded with the newest of them and set to
/// `tick_num`, is `s_in`; running `my_input` on it gave `s_out` and
/// `events`, and `entities` are the entities of `s_out` that the player
/// predicts.
pub open spec fn predicted_from<W, E, V, FR>(
    base: SimState<W, E>,
    es: Seq<(TickNum, Record<E>)>,
    tick_num: TickNum,
    my_input: Input,
    me: PlayerId,
    run: FR,
    entities: Map<EntityId, Tagged<E>>,
    events: Seq<V>,
    s_in: SimState<W, E>,
    s_out: SimState<W, E>,
) -> bool where
    FR: Fn(SimState<W, E>, PlayerId, Input) -> (SimState<W, E>, Vec<Tagged<E>>, Vec<V>),
 {
    &&& s_in.world == base.world
    &&& s_in.tick_num == tick_num
    &&& s_in.entities@ == if es.len() > 0 {
        base.entities@.union_prefer_right(es.last().1.entities@)
    } else {
        base.entities@
    }
    &&& runs(run, s_in, me, my_input, s_out, events)
    &&& entities == predicted_part(s_out.entities@, me)
}

/// What recording an input for `tick_num` did, going from `old_p` to
/// `new_p` and returning `events`: with a server state that ran an input
/// of ours, the correction and replay of `corrected`; otherwise the state
/// to predict from, `base`, is the scratch state kept from before. When
/// predicting, the tick after `tick_num` is predicted from `base` as
/// `predicted_from` says, and the state reached becomes the scratch state.
pub open spec fn prediction_trace<W, E, V, FC, FR>(
    old_p: Prediction<W, E>,
    new_p: Prediction<W, E>,
    tick_num: TickNum,
    my_input: Input,
    server_state: Option<ReceivedState<SimState<W, E>>>,
    correct: FC,
    run: FR,
    events: Seq<V>,
    replay: bool,
    states: Seq<SimState<W, E>>,
    evss: Seq<Seq<V>>,
    base: SimState<W, E>,
    s_in: SimState<W, E>,
    s_out: SimState<W, E>,
) -> bool where
    FC: Fn(PlayerId, IdMap<EntityId, Tagged<E>>, &SimState<W, E>) -> (IdMap<EntityId, Tagged<E>>, bool),
    FR: Fn(SimState<W, E>, PlayerId, Input) -> (SimState<W, E>, Vec<Tagged<E>>, Vec<V>),
 {
    let me = old_p.player();
    let log1 = log_after_reset(old_p.log(), tick_num);
    let es = new_p.log_entries();
    let pred = predicts(old_p, tick_num, server_state);
    let nk: int = if pred {
        es.len() - 1
    } else {
        es.len() as int
    };
    &&& match server_state {
        Some(st) => match st.my_last_input {
            Some(a) => corrected(
                log1,
                new_p.log().remove(next_tick(tick_num)),
                es.take(nk),
                st.game,
                a,
                me,
                correct,
                run,
                replay,
                states,
                evss,
                base,
            ),
            None => pred ==> scratch_after_reset(old_p, tick_num) == Some(base),
        },
        None => pred ==> scratch_after_reset(old_p, tick_num) == Some(base),
    }
    &&& pred ==> {
        &&& predicted_from(
            base,
            es.take(nk),
            tick_num,
            my_input,
            me,
            run,
            new_p.log()[next_tick(tick_num)].entities@,
            events,
            s_in,
            s_out,
        )
        &&& new_p.scratch() == Some(s_out)
        &&& es.len() >= 1
        &&& es.last().0 == next_tick(tick_num)
    }
}

impl<W, E> Prediction<W, E> {
    /// The player whose inputs are predicted.
    pub closed spec fn player(self) -> PlayerId {
        self.my_player_id
    }

    /// The predicted ticks.
    pub closed spec fn log(self) -> Map<TickNum, Record<E>> {
        self.log@
    }

    /// The predicted ticks in increasing order.
    pub closed spec fn log_entries(self) -> Seq<(TickNum, Record<E>)> {
        self.log.entries()
    }

    /// The state from which the next tick is predicted, once a server state
    /// has been received.
    pub closed spec fn scratch(self) -> Option<SimState<W, E>> {
        self.last_server_state_scratch
    }

    /// A server state has been received, so that prediction can run.
    pub open spec fn has_scratch(self) -> bool {
        self.scratch() is Some
    }

}

impl<W, E: Copy> Prediction<W, E> {
    /// Prediction for the player `my_player_id`, with nothing predicted.
    pub fn new(my_player_id: PlayerId) -> (r: Self)
        ensures
            r.player() == my_player_id,
            r.log() == Map::<TickNum, Record<E>>::empty(),
            !r.has_scratch(),
    {
        Prediction { my_player_id, log: IdMap::new(), last_server_state_scratch: None }
    }

    /// The entities predicted for `tick_num`, if that tick was predicted.
    pub fn predicted_entities(&self, tick_num: TickNum) -> (r: Option<&IdMap<EntityId, Tagged<E>>>)
        ensures
            match r {
                Some(e) => self.log().contains_key(tick_num) && *e == self.log()[tick_num].entities,
                None => !self.log().contains_key(tick_num),
            },
    {
        match self.log.get(&tick_num) {
            Some(record) => Some(&record.entities),
            None => None,
        }
    }

    /// Records our input for the tick `tick_num` and predicts the tick
    /// after it, with `correct` and `run` doing the simulation's work:
    /// `correct` corrects predicted entities towards a server state and
    /// tells whether the later predictions must be run again, and `run`
    /// runs an input of a player on a state.
    ///
    /// The log is reset first when it does not end at `tick_num`. When the
    /// server's state for the tick comes with the last input of ours it
    /// ran, the prediction for the tick after that input is corrected,
    /// older predictions are forgotten, and, if the correction asks for
    /// it, the later predictions are run again from the corrected one.
    /// Once a server state has been received, the new input is run and
    /// its prediction logged under `tick_num.next()`; before that, nothing
    /// is predicted and no event is reported.
    pub fn record_tick_input<V, FC, FR>(
        &mut self,
        tick_num: TickNum,
        my_input: Input,
        server_state: Option<ReceivedState<SimState<W, E>>>,
        correct: FC,
        run: FR,
    ) -> (r: Vec<V>) where
        FC: Fn(PlayerId, IdMap<EntityId, Tagged<E>>, &SimState<W, E>) -> (
            IdMap<EntityId, Tagged<E>>,
            bool,
        ),
        FR: Fn(SimState<W, E>, PlayerId, Input) -> (SimState<W, E>, Vec<Tagged<E>>, Vec<V>),

        requires
            tick_num.0 < u32::MAX,
            acknowledged_input(server_state) matches Some(t) ==> t.0 < u32::MAX,
            forall|p: PlayerId, m: IdMap<EntityId, Tagged<E>>, st: &SimState<W, E>|
                #[trigger] call_requires(correct, (p, m, st)),
            forall|st: SimState<W, E>, p: PlayerId, i: Input| #[trigger]
                call_requires(run, (st, p, i)),
        ensures
            final(self).player() == old(self).player(),
            final(self).has_scratch() == predicts(*old(self), tick_num, server_state),
            final(self).log().dom() == if predicts(*old(self), tick_num, server_state) {
                kept_ticks(*old(self), tick_num, server_state).insert(next_tick(tick_num))
            } else {
                kept_ticks(*old(self), tick_num, server_state)
            },
            forall|k: TickNum| #[trigger]
                kept_ticks(*old(self), tick_num, server_state).contains(k) ==> final(self).log()[k].my_last_input
                    == log_after_reset(old(self).log(), tick_num)[k].my_last_input,
            predicts(*old(self), tick_num, server_state) ==> final(self).log()[next_tick(
                tick_num,
            )].my_last_input == my_input,
            acknowledged_input(server_state) is None ==> forall|k: TickNum| #[trigger]
                kept_ticks(*old(self), tick_num, server_state).contains(k) ==> final(self).log()[k].entities
                    == log_after_reset(old(self).log(), tick_num)[k].entities,
            !predicts(*old(self), tick_num, server_state) ==> r@.len() == 0,
            keys_increasing(final(self).log_entries()),
            entries_map(final(self).log_entries()) == final(self).log(),
            exists|
                replay: bool,
                states: Seq<SimState<W, E>>,
                evss: Seq<Seq<V>>,
                base: SimState<W, E>,
                s_in: SimState<W, E>,
                s_out: SimState<W, E>,
            |
                #[trigger] prediction_trace(
                    *old(self),
                    *final(self),
                    tick_num,
                    my_input,
                    server_state,
                    correct,
                    run,
                    r@,
                    replay,
                    states,
                    evss,
                    base,
                    s_in,
                    s_out,
                ),
    {
        let ghost old_p = *self;
        let ghost log0 = self.log@;
        let ghost ss = server_state;

        // Make as few assumptions as possible about consistency between
        // calls: a log that does not end at `tick_num` is thrown away.
        match self.max_logged_tick_num() {
            Some(max_logged) => {
                if max_logged.0 != tick_num.0 {
                    self.log = IdMap::new();
                    self.last_server_state_scratch = None;
                }
            },
            None => {},
        }
        let ghost log1 = self.log@;
        proof {
            if log0 == Map::<TickNum, Record<E>>::empty() {
                assert(log1 == log0);
            }
            assert(log1 == log_after_reset(log0, tick_num));
            assert(self.last_server_state_scratch == scratch_after_reset(old_p, tick_num));
            assert forall|k: TickNum| #[trigger] log1.contains_key(k) implies k.0 <= tick_num.0 by {
                assert(is_max_key(log0, tick_num));
            }
        }
        let scratch = self.last_server_state_scratch.take();

        let ghost mut replay_g: bool = false;
        let ghost mut states: Seq<SimState<W, E>> = Seq::empty();
        let ghost mut evss: Seq<Seq<V>> = Seq::empty();
        let base_opt: Option<SimState<W, E>> = match server_state {
            Some(st) => {
                let ReceivedState { game, my_last_input } = st;
                match my_last_input {
                    Some(a) => {
                        let (base, trace) = self.correct_and_replay(game, a, &correct, &run);
                        proof {
                            replay_g = trace@.0;
                            states = trace@.1;
                            evss = trace@.2;
                        }
                        Some(base)
                    },
                    None => scratch,
                }
            },
            None => scratch,
        };
        let ghost es2 = self.log.entries();
        let ghost log2 = self.log@;
        proof {
            assert(log2.dom() =~= kept_ticks(old_p, tick_num, server_state));
        }
        let ghost mut base_g: SimState<W, E> = vstd::pervasive::arbitrary();
        let ghost mut s_in_g: SimState<W, E> = vstd::pervasive::arbitrary();
        let ghost mut s_out_g: SimState<W, E> = vstd::pervasive::arbitrary();
        let result = match base_opt {
            Some(base) => {
                proof {
                    base_g = base;
                }
                let (events, trace) = self.predict_next(base, tick_num, my_input, &run);
                proof {
                    s_in_g = trace@.0;
                    s_out_g = trace@.1;
                    assert(self.log.entries().last().0 == next_tick(tick_num));
                }
                events
            },
            None => Vec::new(),
        };
        proof {
            use_type_invariant(&self.log);
            let es = self.log.entries();
            let next = next_tick(tick_num);
            if predicts(old_p, tick_num, ss) {
                assert(es.take(es.len() - 1) =~= es2);
                assert(self.log@.remove(next) =~= log2);
            } else {
                assert(es.take(es.len() as int) =~= es2);
                assert(self.log@.remove(next) =~= log2);
            }
            assert(prediction_trace(
                old_p,
                *self,
                tick_num,
                my_input,
                ss,
                correct,
                run,
                result@,
                replay_g,
                states,
                evss,
                base_g,
                s_in_g,
                s_out_g,
            ));
        }
        result
    }

    /// Corrects the log against a server state `game` that ran our input
    /// `a`, forgets the predictions up to `a`, and replays the later ones
    /// when the correction asks for it; gives the state to predict from.
    fn correct_and_replay<V, FC, FR>(
        &mut self,
        game: SimState<W, E>,
        a: TickNum,
        correct: &FC,
        run: &FR,
    ) -> (r: (SimState<W, E>, Ghost<(bool, Seq<SimState<W, E>>, Seq<Seq<V>>)>)) where
        FC: Fn(PlayerId, IdMap<EntityId, Tagged<E>>, &SimState<W, E>) -> (
            IdMap<EntityId, Tagged<E>>,
            bool,
        ),
        FR: Fn(SimState<W, E>, PlayerId, Input) -> (SimState<W, E>, Vec<Tagged<E>>, Vec<V>),

        requires
            a.0 < u32::MAX,
            forall|p: PlayerId, m: IdMap<EntityId, Tagged<E>>, st: &SimState<W, E>|
                #[trigger] call_requires(*correct, (p, m, st)),
            forall|st: SimState<W, E>, p: PlayerId, i: Input| #[trigger]
                call_requires(*run, (st, p, i)),
        ensures
            final(self).player() == old(self).player(),
            final(self).scratch() == old(self).scratch(),
            final(self).log().dom() == old(self).log().dom().filter(|k: TickNum| k.0 > a.0),
            forall|k: TickNum| #[trigger]
                final(self).log().contains_key(k) ==> final(self).log()[k].my_last_input == old(self).log()[k].my_last_input,
            corrected(
                old(self).log(),
                final(self).log(),
                final(self).log_entries(),
                game,
                a,
                old(self).player(),
                *correct,
                *run,
                r.1@.0,
                r.1@.1,
                r.1@.2,
                r.0,
            ),
    {
        let ghost log1 = self.log@;
        let me = self.my_player_id;
        let c = a.next();
        let replay = self.apply_correction(&game, a, correct);
        proof {
            use_type_invariant(&self.log);
        }
        let ghost mut states: Seq<SimState<W, E>> = Seq::empty();
        let ghost mut evss: Seq<Seq<V>> = Seq::empty();
        if !replay {
            return (game, Ghost((false, states, evss)));
        }
        // Run the inputs again, starting from the oldest, just corrected,
        // prediction.
        assert(self.log@.contains_key(c));
        let ghost es_r = self.log.entries();
        let first = self.log.entry_at(0);
        proof {
            lemma_entries_map_index(es_r, 0);
            assert(es_r[0].0 == c) by {
                let j = crate::idmap::key_index(es_r, c);
                lemma_entries_map_index(es_r, j);
                if j > 0 {
                    assert(es_r[0].0.0 < es_r[j].0.0);
                }
            }
        }
        let mut s = game;
        load_entities(&mut s.entities, &first.1.entities);
        let (s, trace) = self.replay_from(s, run);
        proof {
            states = trace@.0;
            evss = trace@.1;
        }
        proof {
            use_type_invariant(&self.log);
            let lr = self.log@;
            assert forall|k: TickNum| #[trigger] lr.contains_key(k) implies lr[k].my_last_input
                == log1[k].my_last_input by {
                let j = crate::idmap::key_index(self.log.entries(), k);
                lemma_entries_map_index(self.log.entries(), j);
                lemma_entries_map_index(es_r, j);
            }
            assert(lr.dom() =~= entries_map(es_r).dom()) by {
                assert forall|k: TickNum| lr.contains_key(k) implies entries_map(es_r).contains_key(k) by {
                    let j = crate::idmap::key_index(self.log.entries(), k);
                    lemma_entries_map_index(self.log.entries(), j);
                    lemma_entries_map_index(es_r, j);
                }
                assert forall|k: TickNum| entries_map(es_r).contains_key(k) implies lr.contains_key(k) by {
                    let j = crate::idmap::key_index(es_r, k);
                    lemma_entries_map_index(self.log.entries(), j);
                    lemma_entries_map_index(es_r, j);
                }
            }
            lemma_entries_map_index(self.log.entries(), 0);
            lemma_entries_map_index(es_r, 0);
        }
        (s, Ghost((true, states, evss)))
    }

    /// Corrects the prediction for the tick after `a` against the server
    /// state `game`, if it is logged, and forgets the predictions up to `a`;
    /// tells whether the correction asks for a replay.
    fn apply_correction<FC>(&mut self, game: &SimState<W, E>, a: TickNum, correct: &FC) -> (r: bool) where
        FC: Fn(PlayerId, IdMap<EntityId, Tagged<E>>, &SimState<W, E>) -> (
            IdMap<EntityId, Tagged<E>>,
            bool,
        ),

        requires
            a.0 < u32::MAX,
            forall|p: PlayerId, m: IdMap<EntityId, Tagged<E>>, st: &SimState<W, E>|
                #[trigger] call_requires(*correct, (p, m, st)),
        ensures
            final(self).player() == old(self).player(),
            final(self).scratch() == old(self).scratch(),
            final(self).log().dom() == old(self).log().dom().filter(|k: TickNum| k.0 > a.0),
            forall|k: TickNum| #[trigger]
                final(self).log().contains_key(k) ==> final(self).log()[k].my_last_input == old(self).log()[k].my_last_input,
            old(self).log().contains_key(next_tick(a)) ==> call_ensures(
                *correct,
                (old(self).player(), old(self).log()[next_tick(a)].entities, game),
                (final(self).log()[next_tick(a)].entities, r),
            ),
            !old(self).log().contains_key(next_tick(a)) ==> !r,
            forall|k: TickNum| #[trigger]
                final(self).log().contains_key(k) && k != next_tick(a) ==> final(self).log()[k].entities
                    == old(self).log()[k].entities,
    {
        let ghost log1 = self.log@;
        let me = self.my_player_id;
        let c = a.next();
        let replay = match self.log.remove(&c) {
            Some(rec) => {
                let Record { entities, my_last_input: rec_input } = rec;
                let (corrected_entities, replay) = correct(me, entities, game);
                self.log.insert(c, Record { entities: corrected_entities, my_last_input: rec_input });
                replay
            },
            None => {
                assert(self.log@ =~= log1);
                false
            },
        };
        let ghost log_c = self.log@;
        proof {
            assert(log_c.dom() =~= log1.dom());
        }
        // Older predictions are no longer needed.
        self.log.retain_greater(&a);
        proof {
            assert(self.log@.dom() =~= log1.dom().filter(|k: TickNum| k.0 > a.0));
        }
        replay
    }

    /// Runs the logged inputs again, from the second prediction on, starting
    /// from the state `s0`, and logs what the player predicts of each
    /// state reached; gives the last state.
    fn replay_from<V, FR>(&mut self, s0: SimState<W, E>, run: &FR) -> (r: (
        SimState<W, E>,
        Ghost<(Seq<SimState<W, E>>, Seq<Seq<V>>)>,
    )) where
        FR: Fn(SimState<W, E>, PlayerId, Input) -> (SimState<W, E>, Vec<Tagged<E>>, Vec<V>),

        requires
            old(self).log_entries().len() >= 1,
            forall|st: SimState<W, E>, p: PlayerId, i: Input| #[trigger]
                call_requires(*run, (st, p, i)),
        ensures
            final(self).player() == old(self).player(),
            final(self).scratch() == old(self).scratch(),
            final(self).log_entries().len() == old(self).log_entries().len(),
            final(self).log_entries()[0] == old(self).log_entries()[0],
            forall|j: int|
                0 <= j < old(self).log_entries().len() ==> (#[trigger] final(self).log_entries()[j]).0 == old(self).log_entries()[j].0 && final(self).log_entries()[j].1.my_last_input == old(self).log_entries()[j].1.my_last_input,
            r.1@.0.len() == old(self).log_entries().len(),
            r.1@.1.len() == old(self).log_entries().len(),
            r.1@.0[0] == s0,
            r.0 == r.1@.0[old(self).log_entries().len() - 1],
            forall|j: int|
                #![trigger r.1@.0[j]]
                1 <= j < old(self).log_entries().len() ==> runs(
                    *run,
                    set_tick(r.1@.0[j - 1], final(self).log_entries()[j].0),
                    old(self).player(),
                    final(self).log_entries()[j].1.my_last_input,
                    r.1@.0[j],
                    r.1@.1[j],
                ) && final(self).log_entries()[j].1.entities@ == predicted_part(
                    r.1@.0[j].entities@,
                    old(self).player(),
                ),
    {
        proof {
            use_type_invariant(&self.log);
        }
        let ghost es_r = self.log.entries();
        let me = self.my_player_id;
        let mut s = s0;
        let ghost mut states: Seq<SimState<W, E>> = seq![s0];
        let ghost mut evss: Seq<Seq<V>> = seq![Seq::<V>::empty()];
        let n = self.log.len();
        let mut i: usize = 1;
        while i < n
            invariant
                1 <= i <= n,
                n == self.log.entries().len(),
                n == es_r.len(),
                keys_increasing(self.log.entries()),
                self.my_player_id == me,
                self.last_server_state_scratch == old(self).last_server_state_scratch,
                forall|st: SimState<W, E>, p: PlayerId, inp: Input| #[trigger]
                    call_requires(*run, (st, p, inp)),
                forall|j: int|
                    0 <= j < n ==> (#[trigger] self.log.entries()[j]).0 == es_r[j].0
                        && self.log.entries()[j].1.my_last_input == es_r[j].1.my_last_input,
                forall|j: int| i <= j < n ==> #[trigger] self.log.entries()[j] == es_r[j],
                self.log.entries()[0] == es_r[0],
                states.len() == i,
                evss.len() == i,
                states[0] == s0,
                s == states[i - 1],
                forall|j: int|
                    #![trigger states[j]]
                    1 <= j < i ==> runs(
                        *run,
                        set_tick(states[j - 1], self.log.entries()[j].0),
                        me,
                        self.log.entries()[j].1.my_last_input,
                        states[j],
                        evss[j],
                    ) && self.log.entries()[j].1.entities@ == predicted_part(
                        states[j].entities@,
                        me,
                    ),
            decreases n - i,
        {
            let entry = self.log.entry_at(i);
            let t = entry.0;
            let input = entry.1.my_last_input;
            s.tick_num = t;
            let (s2, evs) = run_step(run, s, me, input);
            let entities = extract_predicted_entities(&s2.entities, me);
            let ghost before = self.log.entries();
            self.log.set_value_at(i, Record { entities, my_last_input: input });
            proof {
                use_type_invariant(&self.log);
                states = states.push(s2);
                evss = evss.push(evs@);
                assert forall|j: int|
                    #![trigger states[j]]
                    1 <= j < i + 1 implies runs(
                        *run,
                        set_tick(states[j - 1], self.log.entries()[j].0),
                        me,
                        self.log.entries()[j].1.my_last_input,
                        states[j],
                        evss[j],
                    ) && self.log.entries()[j].1.entities@ == predicted_part(
                        states[j].entities@,
                        me,
                    ) by {
                    if j < i {
                        assert(self.log.entries()[j] == before[j]);
                    }
                }
            }
            s = s2;
            i = i + 1;
        }
        (s, Ghost((states, evss)))
    }

    /// Predicts the tick after `tick_num` from the state `base`: loads the
    /// newest prediction into it, runs `my_input`, and logs what the player
    /// predicts of the result, which becomes the scratch state.
    fn predict_next<V, FR>(
        &mut self,
        base: SimState<W, E>,
        tick_num: TickNum,
        my_input: Input,
        run: &FR,
    ) -> (r: (Vec<V>, Ghost<(SimState<W, E>, SimState<W, E>)>)) where
        FR: Fn(SimState<W, E>, PlayerId, Input) -> (SimState<W, E>, Vec<Tagged<E>>, Vec<V>),

        requires
            tick_num.0 < u32::MAX,
            forall|k: TickNum| #[trigger] old(self).log().contains_key(k) ==> k.0 <= tick_num.0,
            forall|st: SimState<W, E>, p: PlayerId, i: Input| #[trigger]
                call_requires(*run, (st, p, i)),
        ensures
            final(self).player() == old(self).player(),
            final(self).log_entries() == old(self).log_entries().push(
                (next_tick(tick_num), final(self).log()[next_tick(tick_num)]),
            ),
            final(self).log() == old(self).log().insert(
                next_tick(tick_num),
                final(self).log()[next_tick(tick_num)],
            ),
            final(self).log()[next_tick(tick_num)].my_last_input == my_input,
            predicted_from(
                base,
                old(self).log_entries(),
                tick_num,
                my_input,
                old(self).player(),
                *run,
                final(self).log()[next_tick(tick_num)].entities@,
                r.0@,
                r.1@.0,
                r.1@.1,
            ),
            final(self).scratch() == Some(r.1@.1),
    {
        proof {
            use_type_invariant(&self.log);
        }
        let ghost es = self.log.entries();
        let me = self.my_player_id;
        let predict_tick_num = tick_num.next();
        let mut s = base;
        match self.log.last_key() {
            Some(k) => match self.log.get(&k) {
                Some(last_record) => {
                    proof {
                        lemma_entries_map_index(es, es.len() - 1);
                    }
                    load_entities(&mut s.entities, &last_record.entities);
                },
                None => {},
            },
            None => {},
        }
        s.tick_num = tick_num;
        let ghost s_in = s;
        let (s2, events) = run_step(run, s, me, my_input);
        let entities = extract_predicted_entities(&s2.entities, me);
        let record = Record { entities, my_last_input: my_input };
        let ghost rec = record;
        proof {
            assert forall|j: TickNum| #[trigger] self.log@.contains_key(j) implies j.key_num()
                < predict_tick_num.key_num() by {
                assert(old(self).log().contains_key(j));
            }
        }
        self.log.push_last(predict_tick_num, record);
        let ghost s_out = s2;
        self.last_server_state_scratch = Some(s2);
        proof {
            assert(self.log@[predict_tick_num] == rec);
        }
        (events, Ghost((s_in, s_out)))
    }

    /// The last predicted tick, if any.
    fn max_logged_tick_num(&self) -> (r: Option<TickNum>)
        ensures
            match r {
                Some(t) => is_max_key(self.log(), t) && t == self.log_entries().last().0,
                None => self.log() == Map::<TickNum, Record<E>>::empty(),
            },
    {
        self.log.last_key()
    }
}

/// The player `me` predicts exactly its own entities, its player entity and
/// the bullets it shot, and never an entity of another player.
pub proof fn lemma_predicts_own_entities_only<E>(m: Map<EntityId, Tagged<E>>, me: PlayerId)
    ensures
        forall|id: EntityId| #[trigger]
            predicted_part(m, me).contains_key(id) <==> m.contains_key(id) && (m[id].class
                == EntityClass::Player(me) || m[id].class == EntityClass::Bullet(Some(me))),
        forall|id: EntityId| #[trigger]
            predicted_part(m, me).contains_key(id) ==> predicted_part(m, me)[id] == m[id],
        forall|o: PlayerId|
            o != me ==> !is_predicted_spec(EntityClass::Bullet(Some(o)), me)
                && !is_predicted_spec(EntityClass::Player(o), me),
        !is_predicted_spec(EntityClass::Bullet(None), me),
        !is_predicted_spec(EntityClass::Other, me),
{
}

/// When recording an input predicts and some earlier prediction is kept,
/// the new input is run on a state holding every entity of the newest kept
/// prediction as that prediction has it: the next tick is predicted from
/// the newest prediction, not from an older state.
pub proof fn lemma_prediction_runs_on_newest<W, E, V, FC, FR>(
    old_p: Prediction<W, E>,
    new_p: Prediction<W, E>,
    tick_num: TickNum,
    my_input: Input,
    server_state: Option<ReceivedState<SimState<W, E>>>,
    correct: FC,
    run: FR,
    events: Seq<V>,
    replay: bool,
    states: Seq<SimState<W, E>>,
    evss: Seq<Seq<V>>,
    base: SimState<W, E>,
    s_in: SimState<W, E>,
    s_out: SimState<W, E>,
    t: TickNum,
) where
    FC: Fn(PlayerId, IdMap<EntityId, Tagged<E>>, &SimState<W, E>) -> (IdMap<EntityId, Tagged<E>>, bool),
    FR: Fn(SimState<W, E>, PlayerId, Input) -> (SimState<W, E>, Vec<Tagged<E>>, Vec<V>),

    requires
        prediction_trace(
            old_p,
            new_p,
            tick_num,
            my_input,
            server_state,
            correct,
            run,
            events,
            replay,
            states,
            evss,
            base,
            s_in,
            s_out,
        ),
        predicts(old_p, tick_num, server_state),
        keys_increasing(new_p.log_entries()),
        entries_map(new_p.log_entries()) == new_p.log(),
        new_p.log().contains_key(t),
        t != next_tick(tick_num),
        forall|k: TickNum| #[trigger]
            new_p.log().contains_key(k) && k != next_tick(tick_num) ==> k.0 <= t.0,
    ensures
        s_in.tick_num == tick_num,
        forall|id: EntityId| #[trigger]
            new_p.log()[t].entities@.contains_key(id) ==> s_in.entities@.contains_key(id)
                && s_in.entities@[id] == new_p.log()[t].entities@[id],
{
    let es = new_p.log_entries();
    let nk = es.len() - 1;
    let j = crate::idmap::key_index(es, t);
    lemma_entries_map_index(es, j);
    if j == nk {
        assert(es[j].0 == next_tick(tick_num));
    }
    assert(j < nk);
    assert(nk >= 1);
    lemma_entries_map_index(es, nk - 1);
    let u = es[nk - 1].0;
    assert(u.0 < es[nk].0.0);
    assert(u != next_tick(tick_num));
    assert(u.0 <= t.0);
    if j < nk - 1 {
        assert(es[j].0.0 < es[nk - 1].0.0);
    }
    assert(j == nk - 1);
    assert(es.take(nk).last() == es[nk - 1]);
}

/// On a replay, the replay starts from the correction: the first replayed
/// state is the server state with the corrected prediction for the tick
/// after the acknowledged input loaded into it, so it holds every entity of
/// that corrected prediction as corrected, and the server's other entities
/// as the server has them.
pub proof fn lemma_replay_starts_from_correction<W, E, V, FC, FR>(
    old_p: Prediction<W, E>,
    new_p: Prediction<W, E>,
    tick_num: TickNum,
    my_input: Input,
    server_state: Option<ReceivedState<SimState<W, E>>>,
    correct: FC,
    run: FR,
    events: Seq<V>,
    states: Seq<SimState<W, E>>,
    evss: Seq<Seq<V>>,
    base: SimState<W, E>,
    s_in: SimState<W, E>,
    s_out: SimState<W, E>,
) where
    FC: Fn(PlayerId, IdMap<EntityId, Tagged<E>>, &SimState<W, E>) -> (IdMap<EntityId, Tagged<E>>, bool),
    FR: Fn(SimState<W, E>, PlayerId, Input) -> (SimState<W, E>, Vec<Tagged<E>>, Vec<V>),

    requires
        prediction_trace(
            old_p,
            new_p,
            tick_num,
            my_input,
            server_state,
            correct,
            run,
            events,
            true,
            states,
            evss,
            base,
            s_in,
            s_out,
        ),
        server_state matches Some(st) && st.my_last_input is Some,
        keys_increasing(new_p.log_entries()),
        entries_map(new_p.log_entries()) == new_p.log(),
    ensures
        ({
            let st = server_state->0;
            let c = next_tick(st.my_last_input->0);
            &&& new_p.log().contains_key(c)
            &&& states.len() >= 1
            &&& states[0].world == st.game.world
            &&& states[0].tick_num == st.game.tick_num
            &&& forall|id: EntityId| #[trigger]
                new_p.log()[c].entities@.contains_key(id) ==> states[0].entities@.contains_key(id)
                    && states[0].entities@[id] == new_p.log()[c].entities@[id]
            &&& forall|id: EntityId| #[trigger]
                st.game.entities@.contains_key(id) && !new_p.log()[c].entities@.contains_key(id)
                    ==> states[0].entities@[id] == st.game.entities@[id]
        }),
{
    let es = new_p.log_entries();
    assert(es.len() >= 1);
    lemma_entries_map_index(es, 0);
    let nk = es.len() - 1;
    assert(es.take(nk)[0] == es[0]);
}

} // verus!
