use vstd::prelude::*;

use crate::ids::{EntityId, PlayerId, SequenceNum, TickNum};

verus! {

/// The most inputs that one client message may carry.
pub const MAX_INPUTS_PER_MESSAGE: usize = 5;

/// The most food a dying player drops.
pub const PLAYER_MAX_LOSE_FOOD: u32 = 5;

/// The least food a dying player drops.
pub const PLAYER_MIN_LOSE_FOOD: u32 = 1;

/// Errors of the game simulation.
#[derive(Debug, Clone, Copy, PartialEq, Eq, Structural)]
pub enum Error {
    InvalidEntityId(EntityId),
    UnexpectedEntityType,
}

/// The keys a player holds during one tick.
#[derive(Debug, Clone, Copy, PartialEq, Eq, Structural)]
pub struct Input {
    pub move_left: bool,
    pub move_right: bool,
    pub move_up: bool,
    pub move_down: bool,
    pub use_item: bool,
    pub use_action: bool,
}

impl Input {
    /// No key is held.
    pub open spec fn is_idle(self) -> bool {
        &&& !self.move_left
        &&& !self.move_right
        &&& !self.move_up
        &&& !self.move_down
        &&& !self.use_item
        &&& !self.use_action
    }
}

impl Default for Input {
    fn default() -> (r: Self)
        ensures
            r.is_idle(),
    {
        Input {
            move_left: false,
            move_right: false,
            move_up: false,
            move_down: false,
            use_item: false,
            use_action: false,
        }
    }
}

/// An item that a player can carry.
#[derive(Debug, Clone, Copy, PartialEq, Eq, Structural)]
pub enum Item {
    Gun { shots: u32 },
    StunGun,
}

/// Why a player died.
#[derive(Debug, Clone, Copy, PartialEq, Eq, Structural)]
pub enum DeathReason {
    ShotBy(Option<PlayerId>),
    TouchedTheDanger,
    CaughtBy(PlayerId),
}

/// Why a request to join a game was refused.
#[derive(Debug, Clone, Copy, PartialEq, Eq, Structural)]
pub enum JoinError {
    InvalidGameId,
    InvalidPlayerName,
    FullGame,
}

/// A message from a client to the server.
#[derive(Debug, Clone)]
pub enum ClientMessage {
    Ping(SequenceNum),
    Pong(SequenceNum),
    Input(Vec<(TickNum, Input)>),
    AckTick(TickNum),
    Disconnect,
}

/// Why a pong could not be matched to a ping.
#[derive(Debug, Clone, Copy, PartialEq, Eq, Structural)]
pub enum ReceivedPongError {
    InvalidSequenceNum,
}

/// The number of food items a player drops on dying, and the food it
/// keeps: it drops its food, at least `PLAYER_MIN_LOSE_FOOD` and at most
/// `PLAYER_MAX_LOSE_FOOD` items, but never loses more than it has.
pub fn food_lost_on_death(food: u32) -> (r: (u32, u32))
    ensures
        r.0 == if food < PLAYER_MIN_LOSE_FOOD {
            PLAYER_MIN_LOSE_FOOD
        } else if food > PLAYER_MAX_LOSE_FOOD {
            PLAYER_MAX_LOSE_FOOD
        } else {
            food
        },
        r.1 == food - if r.0 < food {
            r.0
        } else {
            food
        },
{
    let spawn_food = if food > PLAYER_MAX_LOSE_FOOD {
        PLAYER_MAX_LOSE_FOOD
    } else if food < PLAYER_MIN_LOSE_FOOD {
        PLAYER_MIN_LOSE_FOOD
    } else {
        food
    };
    let lost = if spawn_food < food {
        spawn_food
    } else {
        food
    };
    (spawn_food, food - lost)
}

/// The catcher after the start of a tick: the current one while it is
/// alive, otherwise one of the players alive, `picked` being its index
/// among `alive_players` as drawn at random; `None` when nobody is alive.
/// Tells also whether a new catcher was chosen.
pub fn next_catcher(catcher: Option<PlayerId>, alive_players: &Vec<PlayerId>, picked: Option<
    usize,
>) -> (r: (Option<PlayerId>, bool))
    requires
        picked matches Some(i) ==> i < alive_players@.len(),
        picked is None ==> alive_players@.len() == 0,
    ensures
        r == if catcher matches Some(c) && alive_players@.contains(c) {
            (catcher, false)
        } else {
            match picked {
                Some(i) => (Some(alive_players@[i as int]), true),
                None => (None, false),
            }
        },
{
    match catcher {
        Some(c) => {
            let n = alive_players.len();
            let mut i: usize = 0;
            while i < n
                invariant
                    catcher == Some(c),
                    n == alive_players@.len(),
                    i <= n,
                    forall|j: int| 0 <= j < i ==> alive_players@[j] != c,
                decreases n - i,
            {
                if alive_players[i].0 == c.0 {
                    assert(alive_players@[i as int] == c);
                    assert(alive_players@.contains(c));
                    return (Some(c), false);
                }
                i = i + 1;
            }
        },
        None => {},
    }
    match picked {
        Some(i) => (Some(alive_players[i]), true),
        None => (None, false),
    }
}

} // verus!
