//! The mathematical model of a cache: what it holds and what every
//! operation does to it.

use crate::policy::{
    after_access, after_insert, after_remove, distinct, lemma_access_keeps_ids,
    lemma_distinct_position, lemma_push_slot, lemma_remove_forgets, lemma_victim_in_range,
    tracks, victim_index,
};
use crate::types::{Admission, CacheError, Entry, Handle, Policy, Slot};
use vstd::prelude::*;

verus! {

/// The abstract state of a cache.
pub struct CacheModel {
    /// The eviction strategy.
    pub kind: Policy,
    /// The largest number of entries, or 0 for no limit.
    pub maxsize: nat,
    /// The entries by identifier.
    pub table: Map<i64, Entry>,
    /// The strategy's slots in order; empty for a cache that does not evict.
    pub slots: Seq<Slot>,
}

impl CacheModel {
    /// The cache as it is constructed: nothing stored, nothing tracked.
    pub open spec fn empty(kind: Policy, maxsize: nat) -> CacheModel {
        CacheModel { kind, maxsize, table: Map::empty(), slots: Seq::empty() }
    }

    /// The invariant of every cache: the table is finite, each entry sits
    /// under its own identifier, a limited cache is within its limit, and a
    /// bounded strategy tracks exactly the stored identifiers, each once.
    pub open spec fn wf(self) -> bool {
        &&& self.table.dom().finite()
        &&& forall|id: i64| (#[trigger] self.table.contains_key(id)) ==> self.table[id].id == id
        &&& self.maxsize != 0 ==> self.table.len() <= self.maxsize
        &&& if self.kind.bounded() {
            &&& distinct(self.slots)
            &&& self.slots.len() == self.table.len()
            &&& forall|id: i64| #[trigger] tracks(self.slots, id) <==> self.table.contains_key(id)
        } else {
            self.slots.len() == 0
        }
    }

    /// The number of stored entries.
    pub open spec fn len(self) -> nat {
        self.table.len()
    }

    /// Whether `id` is stored.
    pub open spec fn contains(self, id: i64) -> bool {
        self.table.contains_key(id)
    }

    /// Whether a limited cache has reached its limit.
    pub open spec fn full(self) -> bool {
        self.maxsize != 0 && self.table.len() >= self.maxsize
    }

    /// Whether offering `id` is refused for want of room.
    pub open spec fn refuses(self, id: i64) -> bool {
        !self.contains(id) && self.full() && !self.kind.bounded()
    }

    /// Whether admitting `id` costs another entry its place.
    pub open spec fn evicts(self, id: i64) -> bool {
        !self.contains(id) && self.full() && self.kind.bounded()
    }

    /// The identifier that leaves when room is needed, for the draw `pick`.
    pub open spec fn victim(self, pick: int) -> i64 {
        self.slots[victim_index(self.kind, self.slots, pick)].id
    }

    /// The cache after `id` has been read.
    pub open spec fn touched(self, id: i64) -> CacheModel {
        CacheModel { slots: after_access(self.kind, self.slots, id), ..self }
    }

    /// The cache after `id` has been deleted.
    pub open spec fn removed(self, id: i64) -> CacheModel {
        CacheModel {
            table: self.table.remove(id),
            slots: after_remove(self.slots, id),
            ..self
        }
    }

    /// The cache after a new entry has been admitted without regard to the
    /// limit.
    pub open spec fn admitted(self, entry: Entry) -> CacheModel {
        CacheModel {
            table: self.table.insert(entry.id, entry),
            slots: after_insert(self.kind, self.slots, entry.id),
            ..self
        }
    }

    /// The cache after the value under a stored `id` has been replaced: the
    /// key handle stays, and the strategy counts an access.
    pub open spec fn overwritten(self, id: i64, value: Handle) -> CacheModel {
        CacheModel {
            table: self.table.insert(
                id,
                Entry { id, key_handle: self.table[id].key_handle, value_handle: value },
            ),
            slots: after_access(self.kind, self.slots, id),
            ..self
        }
    }

    /// The cache after `entry` has been offered, for the draw `pick`.
    pub open spec fn inserted(self, entry: Entry, pick: int) -> CacheModel {
        if self.contains(entry.id) {
            self.overwritten(entry.id, entry.value_handle)
        } else if self.refuses(entry.id) {
            self
        } else if self.evicts(entry.id) {
            self.removed(self.victim(pick)).admitted(entry)
        } else {
            self.admitted(entry)
        }
    }

    /// What offering `entry` yields, for the draw `pick`: the entry that was
    /// stored under the same identifier, or the entry that was evicted, or
    /// nothing; or the refusal.
    pub open spec fn insert_yield(self, entry: Entry, pick: int) -> Result<
        Option<Entry>,
        CacheError,
    > {
        if self.contains(entry.id) {
            Ok(Some(self.table[entry.id]))
        } else if self.refuses(entry.id) {
            Err(CacheError::CapacityExceeded)
        } else if self.evicts(entry.id) {
            Ok(Some(self.table[self.victim(pick)]))
        } else {
            Ok(None)
        }
    }

    /// The cache after `entry` has been offered as a default: a stored
    /// identifier is read, an absent one is offered as by `inserted`.
    pub open spec fn defaulted(self, entry: Entry, pick: int) -> CacheModel {
        if self.contains(entry.id) {
            self.touched(entry.id)
        } else {
            self.inserted(entry, pick)
        }
    }

    /// What offering `entry` as a default yields: the entry already stored,
    /// or the refusal, or the new entry with the entry evicted for it.
    pub open spec fn default_yield(self, entry: Entry, pick: int) -> Result<Admission, CacheError> {
        if self.contains(entry.id) {
            Ok(Admission { entry: self.table[entry.id], evicted: None })
        } else if self.refuses(entry.id) {
            Err(CacheError::CapacityExceeded)
        } else if self.evicts(entry.id) {
            Ok(Admission { entry, evicted: Some(self.table[self.victim(pick)]) })
        } else {
            Ok(Admission { entry, evicted: None })
        }
    }

    /// Whether `items` is a snapshot of the cache: every stored entry once
    /// and nothing else, in the strategy's slot order where there is one.
    pub open spec fn snapshot(self, items: Seq<Entry>) -> bool {
        &&& items.len() == self.table.len()
        &&& forall|i: int|
            0 <= i < items.len() ==> self.table.contains_key((#[trigger] items[i]).id)
                && self.table[items[i].id] == items[i]
        &&& forall|i: int, j: int|
            0 <= i < j < items.len() ==> (#[trigger] items[i]).id != (#[trigger] items[j]).id
        &&& forall|id: i64|
            (#[trigger] self.table.contains_key(id)) ==> exists|i: int|
                0 <= i < items.len() && (#[trigger] items[i]).id == id
        &&& self.kind.bounded() ==> forall|i: int|
            0 <= i < items.len() ==> (#[trigger] items[i]).id == self.slots[i].id
    }

    /// The comparison behind `==`: the same limit, and every identifier of
    /// this cache stored in the other. It does not look at values, nor at
    /// what else the other cache stores.
    pub open spec fn agrees(self, other: CacheModel) -> bool {
        self.maxsize == other.maxsize && forall|id: i64|
            (#[trigger] self.contains(id)) ==> other.contains(id)
    }

    /// The comparison behind `!=`: different limits, or no identifier of
    /// this cache stored in the other. It is not the negation of `agrees`.
    pub open spec fn differs(self, other: CacheModel) -> bool {
        self.maxsize != other.maxsize || forall|id: i64|
            (#[trigger] self.contains(id)) ==> !other.contains(id)
    }

    /// The cache after the first `n` items of `source` have been offered in
    /// turn, the `i`-th with the draw `picks[i]`.
    pub open spec fn applied(self, source: Seq<Option<Entry>>, picks: Seq<int>, n: nat) -> CacheModel
        decreases n,
    {
        if n == 0 {
            self
        } else {
            self.applied(source, picks, (n - 1) as nat).inserted(source[n - 1]->0, picks[n - 1])
        }
    }

    /// The entries that left the cache while the first `n` items of
    /// `source` were offered, in the order in which they left.
    pub open spec fn displaced(self, source: Seq<Option<Entry>>, picks: Seq<int>, n: nat) -> Seq<
        Entry,
    >
        decreases n,
    {
        if n == 0 {
            Seq::empty()
        } else {
            let before = self.displaced(source, picks, (n - 1) as nat);
            match self.applied(source, picks, (n - 1) as nat).insert_yield(
                source[n - 1]->0,
                picks[n - 1],
            ) {
                Ok(Some(entry)) => before.push(entry),
                _ => before,
            }
        }
    }

    /// Whether a bulk update stops at item `i`: the source has no item
    /// there, or the cache reached by then refuses it.
    pub open spec fn stalls(self, source: Seq<Option<Entry>>, picks: Seq<int>, i: nat) -> bool {
        source[i as int] is None || self.applied(source, picks, i).refuses(source[i as int]->0.id)
    }

    /// Whether a bulk update from `source` with the draws `picks` ends in
    /// the cache `post` after `n` items: every item before the `n`-th was
    /// applied, the `n`-th is where it stalled unless the source was used
    /// up, and `failure` names the reason.
    pub open spec fn updated(
        self,
        source: Seq<Option<Entry>>,
        picks: Seq<int>,
        post: CacheModel,
        n: nat,
        displaced: Seq<Entry>,
        failure: Option<CacheError>,
    ) -> bool {
        &&& picks.len() == n
        &&& n <= source.len()
        &&& forall|i: nat| i < n ==> !#[trigger] self.stalls(source, picks, i)
        &&& n < source.len() ==> self.stalls(source, picks, n)
        &&& post == self.applied(source, picks, n)
        &&& displaced == self.displaced(source, picks, n)
        &&& failure == if n == source.len() {
            None
        } else if source[n as int] is None {
            Some(CacheError::SourceFailed)
        } else {
            Some(CacheError::CapacityExceeded)
        }
    }

    /// The cache after everything has been dropped.
    pub open spec fn cleared(self) -> CacheModel {
        CacheModel { table: Map::empty(), slots: Seq::empty(), ..self }
    }
}

/// A freshly constructed cache satisfies the invariant.
pub proof fn lemma_empty_wf(kind: Policy, maxsize: nat)
    ensures
        CacheModel::empty(kind, maxsize).wf(),
{
}

/// Clearing keeps the invariant.
pub proof fn lemma_cleared_wf(m: CacheModel)
    ensures
        m.cleared().wf(),
{
}

/// A read keeps the invariant and the table.
pub proof fn lemma_touched_wf(m: CacheModel, id: i64)
    requires
        m.wf(),
    ensures
        m.touched(id).wf(),
{
    if m.kind.bounded() {
        lemma_access_keeps_ids(m.kind, m.slots, id);
    }
}

/// A deletion keeps the invariant.
pub proof fn lemma_removed_wf(m: CacheModel, id: i64)
    requires
        m.wf(),
    ensures
        m.removed(id).wf(),
        m.removed(id).len() == m.len() - if m.contains(id) { 1int } else { 0 },
{
    if m.kind.bounded() {
        lemma_remove_forgets(m.slots, id);
    }
}

/// Admitting an entry under an absent identifier keeps the invariant where
/// there is room for it.
pub proof fn lemma_admitted_wf(m: CacheModel, entry: Entry)
    requires
        m.wf(),
        !m.contains(entry.id),
        !m.full(),
    ensures
        m.admitted(entry).wf(),
        m.admitted(entry).len() == m.len() + 1,
{
    if m.kind.bounded() {
        lemma_push_slot(m.slots, Slot { id: entry.id, hits: 0 });
    }
}

/// Replacing a stored value keeps the invariant and the number of entries.
pub proof fn lemma_overwritten_wf(m: CacheModel, id: i64, value: Handle)
    requires
        m.wf(),
        m.contains(id),
    ensures
        m.overwritten(id, value).wf(),
        m.overwritten(id, value).len() == m.len(),
{
    if m.kind.bounded() {
        lemma_access_keeps_ids(m.kind, m.slots, id);
    }
    assert(m.table.insert(id, m.overwritten(id, value).table[id]).dom() =~= m.table.dom());
}

/// The victim of a full bounded cache is a stored identifier.
pub proof fn lemma_victim_stored(m: CacheModel, pick: int)
    requires
        m.wf(),
        m.kind.bounded(),
        m.len() > 0,
    ensures
        m.contains(m.victim(pick)),
        0 <= victim_index(m.kind, m.slots, pick) < m.slots.len(),
        after_remove(m.slots, m.victim(pick)) == m.slots.remove(
            victim_index(m.kind, m.slots, pick),
        ),
{
    lemma_victim_in_range(m.kind, m.slots, pick);
    let v = victim_index(m.kind, m.slots, pick);
    lemma_distinct_position(m.slots, v);
}

/// Only random replacement consults the draw.
pub proof fn lemma_draw_unused(m: CacheModel, entry: Entry, pick: int, other: int)
    requires
        !(m.kind is Rr),
    ensures
        m.inserted(entry, pick) == m.inserted(entry, other),
        m.insert_yield(entry, pick) == m.insert_yield(entry, other),
        m.defaulted(entry, pick) == m.defaulted(entry, other),
        m.default_yield(entry, pick) == m.default_yield(entry, other),
{
}

/// What a bulk update has done after `n` items depends on the first `n`
/// draws only.
pub proof fn lemma_applied_prefix(
    m: CacheModel,
    source: Seq<Option<Entry>>,
    picks: Seq<int>,
    more: Seq<int>,
    n: nat,
)
    requires
        n <= picks.len() <= more.len(),
        forall|i: int| 0 <= i < picks.len() ==> picks[i] == more[i],
    ensures
        m.applied(source, picks, n) == m.applied(source, more, n),
        m.displaced(source, picks, n) == m.displaced(source, more, n),
    decreases n,
{
    if n > 0 {
        lemma_applied_prefix(m, source, picks, more, (n - 1) as nat);
    }
}

/// Offering an entry keeps the invariant, whatever the draw.
pub proof fn lemma_inserted_wf(m: CacheModel, entry: Entry, pick: int)
    requires
        m.wf(),
    ensures
        m.inserted(entry, pick).wf(),
{
    if m.contains(entry.id) {
        lemma_overwritten_wf(m, entry.id, entry.value_handle);
    } else if m.refuses(entry.id) {
    } else if m.evicts(entry.id) {
        lemma_victim_stored(m, pick);
        lemma_removed_wf(m, m.victim(pick));
        lemma_admitted_wf(m.removed(m.victim(pick)), entry);
    } else {
        lemma_admitted_wf(m, entry);
    }
}

} // verus!
