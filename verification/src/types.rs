//! Plain data shared by the whole engine.

use vstd::prelude::*;

verus! {

/// An opaque ownership token for a key or value object that lives outside
/// the engine. The engine moves tokens around and never interprets them.
#[derive(Clone, Copy, Debug, PartialEq, Eq, Hash, Structural)]
pub struct Handle {
    pub token: u64,
}

/// One stored association: the identifier and the two handles it owns.
#[derive(Clone, Copy, Debug, PartialEq, Eq, Hash, Structural)]
pub struct Entry {
    pub id: i64,
    pub key_handle: Handle,
    pub value_handle: Handle,
}

/// What admitting or finding an entry hands back: the entry now stored under
/// the identifier, and the entry that had to leave for it, if one had.
#[derive(Clone, Copy, Debug, PartialEq, Eq, Hash, Structural)]
pub struct Admission {
    pub entry: Entry,
    pub evicted: Option<Entry>,
}

/// How a bulk update ended: how many items of the source were applied, the
/// entries that left the cache while they were, and why it stopped early if
/// it did.
#[derive(Debug, PartialEq, Eq)]
pub struct UpdateReport {
    pub applied: usize,
    pub displaced: Vec<Entry>,
    pub failure: Option<CacheError>,
}

/// The bookkeeping record a bounded strategy keeps for one identifier.
/// `hits` counts accesses and is only advanced by the frequency strategy.
#[derive(Clone, Copy, Debug, PartialEq, Eq, Hash, Structural)]
pub struct Slot {
    pub id: i64,
    pub hits: u64,
}

/// The eviction strategy of a cache, fixed at construction.
#[derive(Clone, Copy, Debug, PartialEq, Eq, Hash, Structural)]
pub enum Policy {
    /// No eviction: a full cache refuses new identifiers.
    Plain,
    /// First in, first out.
    Fifo,
    /// Least recently used.
    Lru,
    /// Least frequently used, earliest insertion first among equals.
    Lfu,
    /// Random replacement.
    Rr,
}

impl Policy {
    /// Whether the strategy evicts (every strategy but `Plain`).
    pub open spec fn bounded(self) -> bool {
        !(self is Plain)
    }

    pub fn is_bounded(&self) -> (b: bool)
        ensures
            b == self.bounded(),
    {
        match self {
            Policy::Plain => false,
            _ => true,
        }
    }

    /// Whether a read of an entry changes the strategy's ordering.
    pub open spec fn tracks_access(self) -> bool {
        self is Lru || self is Lfu
    }

    pub fn is_access_tracking(&self) -> (b: bool)
        ensures
            b == self.tracks_access(),
    {
        match self {
            Policy::Lru => true,
            Policy::Lfu => true,
            _ => false,
        }
    }
}

/// What an operation of the engine can fail with.
#[derive(Clone, Copy, Debug, PartialEq, Eq, Hash, Structural)]
pub enum CacheError {
    /// The identifier is absent where presence is required.
    NotFound,
    /// A new identifier was offered to a full cache that does not evict.
    CapacityExceeded,
    /// The backing storage could not grow.
    AllocationFailure,
    /// The operation is not offered by the engine.
    NotImplemented,
    /// The source of a bulk update could not produce an item.
    SourceFailed,
}

} // verus!
