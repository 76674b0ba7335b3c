//! The cache engine: a hash-indexed table of entries, a size limit and an
//! eviction strategy kept consistent with the table.

use crate::model::{
    lemma_applied_prefix, lemma_cleared_wf, lemma_draw_unused, lemma_inserted_wf, lemma_removed_wf, lemma_touched_wf,
    lemma_victim_stored, CacheModel,
};
use crate::policy::{position, tracks, PolicyState};
use crate::random::random_below;
use crate::store::{table_capacity, table_shrink_to_fit, table_try_reserve};
use crate::types::{Admission, CacheError, Entry, Handle, Policy, UpdateReport};
use std::collections::HashMap;
use std::collections::TryReserveError;
use vstd::prelude::*;
use vstd::std_specs::iter::IteratorSpec;

verus! {

broadcast use vstd::std_specs::hash::group_hash_axioms;

/// A cache of entries under integer identifiers.
pub struct Cache {
    table: HashMap<i64, Entry>,
    maxsize: usize,
    policy: PolicyState,
}

impl View for Cache {
    type V = CacheModel;

    closed spec fn view(&self) -> CacheModel {
        CacheModel {
            kind: self.policy.kind(),
            maxsize: self.maxsize as nat,
            table: self.table@,
            slots: self.policy.slots(),
        }
    }
}

impl Cache {
    /// The invariant that every constructor establishes and every method
    /// keeps.
    pub open spec fn wf(&self) -> bool {
        self@.wf()
    }

    /// An empty cache that does not evict. `maxsize` is the largest number
    /// of entries, 0 for no limit; `capacity` is a hint for how much room to
    /// set aside at once.
    pub fn new(maxsize: usize, capacity: usize) -> (cache: Cache)
        ensures
            cache.wf(),
            cache@ == CacheModel::empty(Policy::Plain, maxsize as nat),
    {
        Cache::with_policy(Policy::Plain, maxsize, capacity)
    }

    /// An empty cache with the given eviction strategy.
    pub fn with_policy(kind: Policy, maxsize: usize, capacity: usize) -> (cache: Cache)
        ensures
            cache.wf(),
            cache@ == CacheModel::empty(kind, maxsize as nat),
    {
        let room: usize = if maxsize != 0 && capacity > maxsize {
            maxsize
        } else {
            capacity
        };
        let mut table: HashMap<i64, Entry> = HashMap::new();
        let _ = table_try_reserve(&mut table, room);
        Cache { table, maxsize, policy: PolicyState::new(kind) }
    }

    /// The largest number of entries, 0 for no limit.
    pub fn maxsize(&self) -> (m: usize)
        ensures
            m == self@.maxsize,
    {
        self.maxsize
    }

    /// The largest number of entries, 0 for no limit.
    pub fn getmaxsize(&self) -> (m: usize)
        ensures
            m == self@.maxsize,
    {
        self.maxsize
    }

    /// The eviction strategy.
    pub fn policy(&self) -> (kind: Policy)
        ensures
            kind == self@.kind,
    {
        self.policy.policy()
    }

    /// The number of stored entries.
    pub fn len(&self) -> (n: usize)
        ensures
            n == self@.len(),
    {
        self.table.len()
    }

    /// Whether nothing is stored.
    pub fn is_empty(&self) -> (b: bool)
        ensures
            b == (self@.len() == 0),
    {
        self.table.len() == 0
    }

    /// Whether `id` is stored.
    pub fn contains(&self, id: i64) -> (b: bool)
        ensures
            b == self@.contains(id),
    {
        self.table.contains_key(&id)
    }

    /// The access count that the strategy keeps for `id`; `None` where the
    /// identifier is absent or the cache does not evict.
    pub fn hits(&self, id: i64) -> (count: Option<u64>)
        ensures
            count == if tracks(self@.slots, id) {
                Some(self@.slots[position(self@.slots, id)].hits)
            } else {
                None
            },
    {
        self.policy.hits(id)
    }

    /// The entry under `id`, without telling the eviction strategy.
    pub fn peek(&self, id: i64) -> (found: Option<Entry>)
        ensures
            found == if self@.contains(id) {
                Some(self@.table[id])
            } else {
                None
            },
    {
        match self.table.get(&id) {
            Some(entry) => Some(*entry),
            None => None,
        }
    }

    /// The entry under `id`. A successful read counts as an access for the
    /// strategies that track recency or frequency.
    pub fn get(&mut self, id: i64) -> (found: Option<Entry>)
        requires
            old(self).wf(),
        ensures
            final(self).wf(),
            final(self)@ == old(self)@.touched(id),
            found == if old(self)@.contains(id) {
                Some(old(self)@.table[id])
            } else {
                None
            },
    {
        let found = self.peek(id);
        self.policy.on_access(id);
        proof {
            lemma_touched_wf(old(self)@, id);
        }
        found
    }

    /// Deletes the entry under `id` and returns it.
    pub fn remove(&mut self, id: i64) -> (gone: Option<Entry>)
        requires
            old(self).wf(),
        ensures
            final(self).wf(),
            final(self)@ == old(self)@.removed(id),
            gone == if old(self)@.contains(id) {
                Some(old(self)@.table[id])
            } else {
                None
            },
    {
        let gone = self.table.remove(&id);
        self.policy.on_remove(id);
        proof {
            lemma_removed_wf(old(self)@, id);
        }
        gone
    }

    /// Offers an entry, with `pick` as the draw that random replacement
    /// consults when it has to evict.
    ///
    /// Under a stored identifier the value handle is replaced, the key
    /// handle stays, and the previous entry is returned. Under a new
    /// identifier the entry is admitted; where the cache is full, a cache
    /// that does not evict refuses it and changes nothing, and any other
    /// evicts its victim first and returns the evicted entry.
    pub fn insert_with(&mut self, id: i64, key: Handle, value: Handle, pick: usize) -> (yielded:
        Result<Option<Entry>, CacheError>)
        requires
            old(self).wf(),
        ensures
            final(self).wf(),
            final(self)@ == old(self)@.inserted(
                Entry { id, key_handle: key, value_handle: value },
                pick as int,
            ),
            yielded == old(self)@.insert_yield(
                Entry { id, key_handle: key, value_handle: value },
                pick as int,
            ),
    {
        let entry = Entry { id, key_handle: key, value_handle: value };
        proof {
            lemma_inserted_wf(old(self)@, entry, pick as int);
        }
        match self.peek(id) {
            Some(previous) => {
                self.table.insert(
                    id,
                    Entry { id, key_handle: previous.key_handle, value_handle: value },
                );
                self.policy.on_access(id);
                return Ok(Some(previous));
            },
            None => {},
        }
        if self.maxsize != 0 && self.table.len() >= self.maxsize {
            if !self.policy.policy().is_bounded() {
                return Err(CacheError::CapacityExceeded);
            }
            proof {
                lemma_victim_stored(old(self)@, pick as int);
            }
            let index = self.policy.victim_at(pick);
            let gone = self.policy.evict(index);
            let evicted = self.table.remove(&gone.id);
            self.table.insert(id, entry);
            self.policy.on_insert(id);
            return Ok(evicted);
        }
        self.table.insert(id, entry);
        self.policy.on_insert(id);
        Ok(None)
    }

    /// The draw for an offer of `id`: a random slot where random replacement
    /// is about to evict, and 0 where no draw is consulted.
    fn draw(&self, id: i64) -> (pick: usize)
        requires
            self.wf(),
        ensures
            self@.kind is Rr && self@.evicts(id) ==> pick < self@.slots.len(),
            !(self@.kind is Rr && self@.evicts(id)) ==> pick == 0,
    {
        match self.policy.policy() {
            Policy::Rr => {
                if self.maxsize != 0 && self.table.len() >= self.maxsize && !self.contains(id) {
                    random_below(self.policy.len())
                } else {
                    0
                }
            },
            _ => 0,
        }
    }

    /// Offers an entry. It does what `insert_with` does, with a draw made
    /// at random where random replacement has to evict.
    pub fn insert(&mut self, id: i64, key: Handle, value: Handle) -> (yielded: Result<
        Option<Entry>,
        CacheError,
    >)
        requires
            old(self).wf(),
        ensures
            final(self).wf(),
            exists|pick: int|
                {
                    &&& old(self)@.kind is Rr && old(self)@.evicts(id) ==> 0 <= pick < old(
                        self,
                    )@.slots.len()
                    &&& final(self)@ == #[trigger] old(self)@.inserted(
                        Entry { id, key_handle: key, value_handle: value },
                        pick,
                    )
                    &&& yielded == old(self)@.insert_yield(
                        Entry { id, key_handle: key, value_handle: value },
                        pick,
                    )
                },
            !(old(self)@.kind is Rr) ==> final(self)@ == old(self)@.inserted(
                Entry { id, key_handle: key, value_handle: value },
                0,
            ) && yielded == old(self)@.insert_yield(
                Entry { id, key_handle: key, value_handle: value },
                0,
            ),
    {
        let pick = self.draw(id);
        proof {
            if !(old(self)@.kind is Rr) {
                lemma_draw_unused(
                    old(self)@,
                    Entry { id, key_handle: key, value_handle: value },
                    pick as int,
                    0,
                );
            }
        }
        self.insert_with(id, key, value, pick)
    }

    /// Returns the entry under `id` if one is stored, which counts as an
    /// access; otherwise offers `key` and `default` as `insert_with` does
    /// and returns the new entry with the entry evicted for it.
    pub fn setdefault_with(&mut self, id: i64, key: Handle, default: Handle, pick: usize) -> (yielded:
        Result<Admission, CacheError>)
        requires
            old(self).wf(),
        ensures
            final(self).wf(),
            final(self)@ == old(self)@.defaulted(
                Entry { id, key_handle: key, value_handle: default },
                pick as int,
            ),
            yielded == old(self)@.default_yield(
                Entry { id, key_handle: key, value_handle: default },
                pick as int,
            ),
    {
        match self.get(id) {
            Some(entry) => Ok(Admission { entry, evicted: None }),
            None => {
                assert(self@ == old(self)@);
                match self.insert_with(id, key, default, pick) {
                    Ok(evicted) => Ok(
                        Admission {
                            entry: Entry { id, key_handle: key, value_handle: default },
                            evicted,
                        },
                    ),
                    Err(e) => Err(e),
                }
            },
        }
    }

    /// Returns the entry under `id` if one is stored; otherwise offers
    /// `key` and `default`, with a draw made at random where random
    /// replacement has to evict.
    pub fn setdefault(&mut self, id: i64, key: Handle, default: Handle) -> (yielded: Result<
        Admission,
        CacheError,
    >)
        requires
            old(self).wf(),
        ensures
            final(self).wf(),
            exists|pick: int|
                {
                    &&& old(self)@.kind is Rr && old(self)@.evicts(id) ==> 0 <= pick < old(
                        self,
                    )@.slots.len()
                    &&& final(self)@ == #[trigger] old(self)@.defaulted(
                        Entry { id, key_handle: key, value_handle: default },
                        pick,
                    )
                    &&& yielded == old(self)@.default_yield(
                        Entry { id, key_handle: key, value_handle: default },
                        pick,
                    )
                },
            !(old(self)@.kind is Rr) ==> final(self)@ == old(self)@.defaulted(
                Entry { id, key_handle: key, value_handle: default },
                0,
            ) && yielded == old(self)@.default_yield(
                Entry { id, key_handle: key, value_handle: default },
                0,
            ),
    {
        let pick = self.draw(id);
        proof {
            if !(old(self)@.kind is Rr) {
                lemma_draw_unused(
                    old(self)@,
                    Entry { id, key_handle: key, value_handle: default },
                    pick as int,
                    0,
                );
            }
        }
        self.setdefault_with(id, key, default, pick)
    }

    /// The value handle under `id`, or `NotFound`. A successful read counts
    /// as an access.
    pub fn get_item(&mut self, id: i64) -> (found: Result<Handle, CacheError>)
        requires
            old(self).wf(),
        ensures
            final(self).wf(),
            final(self)@ == old(self)@.touched(id),
            found == if old(self)@.contains(id) {
                Ok::<Handle, CacheError>(old(self)@.table[id].value_handle)
            } else {
                Err(CacheError::NotFound)
            },
    {
        match self.get(id) {
            Some(entry) => Ok(entry.value_handle),
            None => Err(CacheError::NotFound),
        }
    }

    /// The value handle under `id`, or `default` where nothing is stored. A
    /// successful read counts as an access.
    pub fn get_or(&mut self, id: i64, default: Handle) -> (found: Handle)
        requires
            old(self).wf(),
        ensures
            final(self).wf(),
            final(self)@ == old(self)@.touched(id),
            found == if old(self)@.contains(id) {
                old(self)@.table[id].value_handle
            } else {
                default
            },
    {
        match self.get(id) {
            Some(entry) => entry.value_handle,
            None => default,
        }
    }

    /// Deletes the entry under `id` and returns it, or `NotFound`.
    pub fn delete(&mut self, id: i64) -> (gone: Result<Entry, CacheError>)
        requires
            old(self).wf(),
        ensures
            final(self).wf(),
            final(self)@ == old(self)@.removed(id),
            gone == if old(self)@.contains(id) {
                Ok::<Entry, CacheError>(old(self)@.table[id])
            } else {
                Err(CacheError::NotFound)
            },
    {
        match self.remove(id) {
            Some(entry) => Ok(entry),
            None => Err(CacheError::NotFound),
        }
    }

    /// Deletes the entry under `id`. Returns the value handle for the
    /// caller, which is the stored one or else `default`, and the deleted
    /// entry, whose handles have left the cache.
    pub fn pop(&mut self, id: i64, default: Option<Handle>) -> (popped: (
        Option<Handle>,
        Option<Entry>,
    ))
        requires
            old(self).wf(),
        ensures
            final(self).wf(),
            final(self)@ == old(self)@.removed(id),
            popped == if old(self)@.contains(id) {
                (Some(old(self)@.table[id].value_handle), Some(old(self)@.table[id]))
            } else {
                (default, None::<Entry>)
            },
    {
        match self.remove(id) {
            Some(entry) => (Some(entry.value_handle), Some(entry)),
            None => (default, None),
        }
    }

    /// Removing an arbitrary entry is not offered: always `NotImplemented`.
    pub fn popitem(&self) -> (gone: Result<Entry, CacheError>)
        ensures
            gone == Err::<Entry, CacheError>(CacheError::NotImplemented),
    {
        Err(CacheError::NotImplemented)
    }

    /// Drops every entry and all of the strategy's bookkeeping. With
    /// `reuse` the table keeps its room for later entries; without it the
    /// room is given back.
    pub fn clear(&mut self, reuse: bool)
        ensures
            final(self).wf(),
            final(self)@ == old(self)@.cleared(),
            final(self)@.len() == 0,
    {
        self.table.clear();
        self.policy.clear();
        if !reuse {
            table_shrink_to_fit(&mut self.table);
        }
        proof {
            lemma_cleared_wf(old(self)@);
        }
    }

    /// The number of entries the table has room for. It is never below the
    /// number it holds.
    pub fn capacity(&self) -> (slots: usize)
        ensures
            slots >= self@.len(),
    {
        table_capacity(&self.table)
    }

    /// Asks for room for `additional` more entries. The cache is the same
    /// afterwards whether or not the room was granted; a refusal is
    /// reported as `AllocationFailure`.
    pub fn reserve(&mut self, additional: usize) -> (granted: Result<(), CacheError>)
        ensures
            final(self)@ == old(self)@,
            granted is Err ==> granted == Err::<(), CacheError>(CacheError::AllocationFailure),
    {
        reservation(table_try_reserve(&mut self.table, additional))
    }

    /// Gives back room the table does not use. The cache is the same
    /// afterwards.
    pub fn shrink_to_fit(&mut self)
        ensures
            final(self)@ == old(self)@,
    {
        table_shrink_to_fit(&mut self.table);
    }

    /// Offers the items of `source` in turn, as `insert` does, and stops at
    /// the first position where the source has no item or the cache refuses
    /// the item. What was applied before stays applied.
    pub fn update(&mut self, source: &Vec<Option<Entry>>) -> (report: UpdateReport)
        requires
            old(self).wf(),
        ensures
            final(self).wf(),
            exists|picks: Seq<int>| #[trigger]
                old(self)@.updated(
                    source@,
                    picks,
                    final(self)@,
                    report.applied as nat,
                    report.displaced@,
                    report.failure,
                ),
    {
        let ghost start = self@;
        let ghost mut picks: Seq<int> = Seq::empty();
        let mut displaced: Vec<Entry> = Vec::new();
        let mut i: usize = 0;
        while i < source.len()
            invariant
                i <= source.len(),
                self.wf(),
                start == old(self)@,
                picks.len() == i,
                self@ == start.applied(source@, picks, i as nat),
                displaced@ == start.displaced(source@, picks, i as nat),
                forall|k: nat| k < i ==> !#[trigger] start.stalls(source@, picks, k),
            decreases source.len() - i,
        {
            match source[i] {
                None => {
                    let report = UpdateReport {
                        applied: i,
                        displaced,
                        failure: Some(CacheError::SourceFailed),
                    };
                    assert(start.updated(
                        source@,
                        picks,
                        self@,
                        report.applied as nat,
                        report.displaced@,
                        report.failure,
                    ));
                    return report;
                },
                Some(entry) => {
                    let pick = self.draw(entry.id);
                    match self.insert_with(entry.id, entry.key_handle, entry.value_handle, pick) {
                        Err(_) => {
                            let report = UpdateReport {
                                applied: i,
                                displaced,
                                failure: Some(CacheError::CapacityExceeded),
                            };
                            assert(start.updated(
                                source@,
                                picks,
                                self@,
                                report.applied as nat,
                                report.displaced@,
                                report.failure,
                            ));
                            return report;
                        },
                        Ok(gone) => {
                            proof {
                                let more = picks.push(pick as int);
                                lemma_applied_prefix(start, source@, picks, more, i as nat);
                                assert forall|k: nat| k < i + 1 implies !#[trigger] start.stalls(
                                    source@,
                                    more,
                                    k,
                                ) by {
                                    lemma_applied_prefix(start, source@, picks, more, k);
                                    if k < i {
                                        assert(!start.stalls(source@, picks, k));
                                    }
                                }
                                picks = more;
                            }
                            match gone {
                                Some(left) => {
                                    displaced.push(left);
                                },
                                None => {},
                            }
                        },
                    }
                },
            }
            i += 1;
        }
        let report = UpdateReport { applied: i, displaced, failure: None };
        assert(start.updated(
            source@,
            picks,
            self@,
            report.applied as nat,
            report.displaced@,
            report.failure,
        ));
        report
    }

    /// A snapshot of the entries: each stored entry once, in slot order
    /// under a bounded strategy and in the table's own order otherwise.
    pub fn items(&self) -> (out: Vec<Entry>)
        requires
            self.wf(),
        ensures
            self@.snapshot(out@),
    {
        let mut out: Vec<Entry> = Vec::new();
        if self.policy.policy().is_bounded() {
            let n: usize = self.policy.len();
            let mut i: usize = 0;
            while i < n
                invariant
                    self.wf(),
                    self@.kind.bounded(),
                    n == self@.slots.len(),
                    i <= n,
                    out@.len() == i,
                    forall|j: int|
                        0 <= j < i ==> (#[trigger] out@[j]).id == self@.slots[j].id
                            && self@.table.contains_key(out@[j].id) && self@.table[out@[j].id]
                            == out@[j],
                decreases n - i,
            {
                let id = self.policy.slot(i).id;
                proof {
                    assert(tracks(self@.slots, self@.slots[i as int].id));
                }
                match self.peek(id) {
                    Some(entry) => {
                        out.push(entry);
                    },
                    None => {},
                }
                i += 1;
            }
            proof {
                assert forall|id: i64| #[trigger] self@.table.contains_key(id) implies exists|
                    k: int,
                |
                    0 <= k < out@.len() && (#[trigger] out@[k]).id == id by {
                    assert(tracks(self@.slots, id));
                    let k = choose|k: int|
                        0 <= k < self@.slots.len() && (#[trigger] self@.slots[k]).id == id;
                    assert(out@[k].id == id);
                }
            }
        } else {
            let iter = self.table.iter();
            let ghost walk = iter.remaining();
            for pair in it: iter
                invariant
                    it.seq() == walk,
                    out@.len() == it.index(),
                    forall|j: int| 0 <= j < it.index() ==> #[trigger] out@[j] == *walk[j].1,
            {
                let (_, entry) = pair;
                out.push(*entry);
            }
            proof {
                let table = self@.table;
                assert(walk.len() == table.dom().len());
                assert forall|j: int| 0 <= j < out@.len() implies table.contains_key(
                    (#[trigger] out@[j]).id,
                ) && table[out@[j].id] == out@[j] by {
                    assert(table.contains_key(*walk[j].0));
                }
                assert forall|i: int, j: int| 0 <= i < j < out@.len() implies (#[trigger] out@[i]).id
                    != (#[trigger] out@[j]).id by {
                    assert(table.contains_key(*walk[i].0));
                    assert(table.contains_key(*walk[j].0));
                    assert(walk[i] != walk[j]);
                }
                assert forall|id: i64| #[trigger] table.contains_key(id) implies exists|k: int|
                    0 <= k < out@.len() && (#[trigger] out@[k]).id == id by {
                    assert(walk.contains((&id, &table[id])));
                    let k = choose|k: int| 0 <= k < walk.len() && walk[k] == (&id, &table[id]);
                    assert(out@[k].id == id);
                }
            }
        }
        out
    }

    /// A snapshot of the key handles, in the order of `items`.
    pub fn keys(&self) -> (out: Vec<Handle>)
        requires
            self.wf(),
        ensures
            exists|items: Seq<Entry>| #[trigger]
                self@.snapshot(items) && out@ == Seq::new(
                    items.len(),
                    |i: int| items[i].key_handle,
                ),
    {
        let items = self.items();
        let mut out: Vec<Handle> = Vec::new();
        let mut i: usize = 0;
        while i < items.len()
            invariant
                i <= items.len(),
                out@.len() == i,
                forall|j: int| 0 <= j < i ==> #[trigger] out@[j] == items@[j].key_handle,
            decreases items.len() - i,
        {
            out.push(items[i].key_handle);
            i += 1;
        }
        assert(out@ =~= Seq::new(items@.len(), |i: int| items@[i].key_handle));
        out
    }

    /// A snapshot of the value handles, in the order of `items`.
    pub fn values(&self) -> (out: Vec<Handle>)
        requires
            self.wf(),
        ensures
            exists|items: Seq<Entry>| #[trigger]
                self@.snapshot(items) && out@ == Seq::new(
                    items.len(),
                    |i: int| items[i].value_handle,
                ),
    {
        let items = self.items();
        let mut out: Vec<Handle> = Vec::new();
        let mut i: usize = 0;
        while i < items.len()
            invariant
                i <= items.len(),
                out@.len() == i,
                forall|j: int| 0 <= j < i ==> #[trigger] out@[j] == items@[j].value_handle,
            decreases items.len() - i,
        {
            out.push(items[i].value_handle);
            i += 1;
        }
        assert(out@ =~= Seq::new(items@.len(), |i: int| items@[i].value_handle));
        out
    }

    /// Whether this cache compares equal to `other`: the limits are the
    /// same and every identifier stored here is stored there.
    pub fn eq(&self, other: &Cache) -> (same: bool)
        requires
            self.wf(),
        ensures
            same == self@.agrees(other@),
    {
        if self.maxsize != other.maxsize {
            return false;
        }
        let items = self.items();
        let mut i: usize = 0;
        while i < items.len()
            invariant
                i <= items.len(),
                self@.snapshot(items@),
                self@.maxsize == other@.maxsize,
                forall|j: int| 0 <= j < i ==> other@.contains((#[trigger] items@[j]).id),
            decreases items.len() - i,
        {
            let id = items[i].id;
            if !other.contains(id) {
                assert(self@.contains(id) && !other@.contains(id));
                return false;
            }
            i += 1;
        }
        true
    }

    /// Whether this cache compares unequal to `other`: the limits differ,
    /// or no identifier stored here is stored there.
    pub fn ne(&self, other: &Cache) -> (apart: bool)
        requires
            self.wf(),
        ensures
            apart == self@.differs(other@),
    {
        if self.maxsize != other.maxsize {
            return true;
        }
        let items = self.items();
        let mut i: usize = 0;
        while i < items.len()
            invariant
                i <= items.len(),
                self@.snapshot(items@),
                self@.maxsize == other@.maxsize,
                forall|j: int| 0 <= j < i ==> !other@.contains((#[trigger] items@[j]).id),
            decreases items.len() - i,
        {
            let id = items[i].id;
            if other.contains(id) {
                assert(self@.contains(id) && other@.contains(id));
                return false;
            }
            i += 1;
        }
        true
    }

    /// An estimate of the bytes the table occupies: one identifier and two
    /// handles for each slot it has room for, and one identifier more.
    pub fn memory_size(&self) -> (bytes: u128)
        ensures
            exists|slots: nat|
                slots >= self@.len() && slots <= usize::MAX && bytes == #[trigger] footprint_of(
                    slots,
                ),
    {
        let slots = self.capacity();
        let bytes = footprint(slots);
        assert(bytes == footprint_of(slots as nat));
        bytes
    }
}

/// What a request for room is reported as: granted, or
/// `AllocationFailure` where the platform refused it.
pub fn reservation(granted: Result<(), TryReserveError>) -> (reported: Result<(), CacheError>)
    ensures
        reported == if granted is Ok {
            Ok::<(), CacheError>(())
        } else {
            Err(CacheError::AllocationFailure)
        },
{
    match granted {
        Ok(_) => Ok(()),
        Err(_) => Err(CacheError::AllocationFailure),
    }
}

/// The bytes an identifier occupies.
pub const ID_BYTES: usize = 8;

/// The bytes a handle occupies.
pub const HANDLE_BYTES: usize = 8;

/// The bytes a table with room for `slots` entries occupies.
pub open spec fn footprint_of(slots: nat) -> nat {
    slots * (ID_BYTES + 2 * HANDLE_BYTES) as nat + ID_BYTES as nat
}

/// The bytes a table with room for `slots` entries occupies.
pub fn footprint(slots: usize) -> (bytes: u128)
    ensures
        bytes == footprint_of(slots as nat),
{
    let per_slot: u128 = 24;
    let fixed: u128 = 8;
    assert(slots as nat * 24 + 8 <= u128::MAX) by (nonlinear_arith)
        requires
            slots <= u64::MAX,
    ;
    (slots as u128) * per_slot + fixed
}

} // verus!
