use vstd::prelude::*;

verus! {

/// Identifier of a player, unique within one game.
#[derive(Debug, Clone, Copy, PartialEq, Eq, Structural, PartialOrd, Ord, Hash)]
pub struct PlayerId(pub u32);

impl PlayerId {
    /// The identifier that follows this one.
    pub fn next(&self) -> (r: PlayerId)
        requires
            self.0 < u32::MAX,
        ensures
            r.0 == self.0 + 1,
    {
        PlayerId(self.0 + 1)
    }
}

/// Identifier of an entity, unique within one game state.
#[derive(Debug, Clone, Copy, PartialEq, Eq, Structural, PartialOrd, Ord, Hash)]
pub struct EntityId(pub u32);

impl EntityId {
    /// The identifier that follows this one.
    pub fn next(&self) -> (r: EntityId)
        requires
            self.0 < u32::MAX,
        ensures
            r.0 == self.0 + 1,
    {
        EntityId(self.0 + 1)
    }
}

/// Number of a simulation tick.
#[derive(Debug, Clone, Copy, PartialEq, Eq, Structural, PartialOrd, Ord, Hash)]
pub struct TickNum(pub u32);

impl TickNum {
    /// The tick that follows this one.
    pub fn next(&self) -> (r: TickNum)
        requires
            self.0 < u32::MAX,
        ensures
            r.0 == self.0 + 1,
    {
        TickNum(self.0 + 1)
    }
}

/// A key type whose values are told apart, and ordered, by a number.
///
/// The identifier types of the game all wrap a single integer; maps and
/// joins over them are sorted by that integer.
pub trait IdKey: Copy + Sized {
    /// The number that orders and identifies the key.
    spec fn key_num(&self) -> int;

    /// The number of the key, computed.
    fn key(&self) -> (r: u64)
        ensures
            r as int == self.key_num(),
    ;

    /// Two keys with the same number are the same key.
    proof fn lemma_key_num_injective(a: Self, b: Self)
        ensures
            a.key_num() == b.key_num() ==> a == b,
    ;
}

impl IdKey for PlayerId {
    open spec fn key_num(&self) -> int {
        self.0 as int
    }

    fn key(&self) -> (r: u64) {
        self.0 as u64
    }

    proof fn lemma_key_num_injective(a: Self, b: Self) {
    }
}

impl IdKey for EntityId {
    open spec fn key_num(&self) -> int {
        self.0 as int
    }

    fn key(&self) -> (r: u64) {
        self.0 as u64
    }

    proof fn lemma_key_num_injective(a: Self, b: Self) {
    }
}

impl IdKey for TickNum {
    open spec fn key_num(&self) -> int {
        self.0 as int
    }

    fn key(&self) -> (r: u64) {
        self.0 as u64
    }

    proof fn lemma_key_num_injective(a: Self, b: Self) {
    }
}

impl IdKey for u32 {
    open spec fn key_num(&self) -> int {
        *self as int
    }

    fn key(&self) -> (r: u64) {
        *self as u64
    }

    proof fn lemma_key_num_injective(a: Self, b: Self) {
    }
}

/// Sequence number of a ping message.
#[derive(Debug, Clone, Copy, PartialEq, Eq, Structural, PartialOrd, Ord, Hash)]
pub struct SequenceNum(pub usize);

} // verus!
