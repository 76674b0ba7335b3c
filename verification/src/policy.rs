//! The eviction strategies: an ordered sequence of slots, one per tracked
//! identifier, and the rules by which each strategy reorders it and picks a
//! victim.

use crate::random::random_below;
use crate::types::{Policy, Slot};
use std::collections::VecDeque;
use vstd::prelude::*;

verus! {

broadcast use vstd::std_specs::vecdeque::group_vec_dequeue_axioms;

/// No identifier occurs in two slots.
pub open spec fn distinct(slots: Seq<Slot>) -> bool {
    forall|i: int, j: int| 0 <= i < j < slots.len() ==> slots[i].id != slots[j].id
}

/// Some slot carries `id`.
pub open spec fn tracks(slots: Seq<Slot>, id: i64) -> bool {
    exists|i: int| 0 <= i < slots.len() && (#[trigger] slots[i]).id == id
}

/// `i` is the first slot that carries `id`.
pub open spec fn first_at(slots: Seq<Slot>, id: i64, i: int) -> bool {
    &&& 0 <= i < slots.len()
    &&& slots[i].id == id
    &&& forall|j: int| 0 <= j < i ==> (#[trigger] slots[j]).id != id
}

/// The index of the first slot that carries `id`, where one does.
pub open spec fn position(slots: Seq<Slot>, id: i64) -> int {
    choose|i: int| first_at(slots, id, i)
}

/// The identifiers of the slots, in slot order.
pub open spec fn slot_ids(slots: Seq<Slot>) -> Seq<i64> {
    Seq::new(slots.len(), |i: int| slots[i].id)
}

/// A slot with its access count advanced by one, held at the largest count.
pub open spec fn bumped(s: Slot) -> Slot {
    Slot { id: s.id, hits: if s.hits < u64::MAX { (s.hits + 1) as u64 } else { s.hits } }
}

/// The slots after a new identifier has been admitted.
pub open spec fn after_insert(kind: Policy, slots: Seq<Slot>, id: i64) -> Seq<Slot> {
    if kind.bounded() {
        slots.push(Slot { id, hits: 0 })
    } else {
        slots
    }
}

/// The slots after `id` has been read or overwritten.
pub open spec fn after_access(kind: Policy, slots: Seq<Slot>, id: i64) -> Seq<Slot> {
    if !tracks(slots, id) {
        slots
    } else {
        let p = position(slots, id);
        match kind {
            Policy::Lru => slots.remove(p).push(slots[p]),
            Policy::Lfu => slots.update(p, bumped(slots[p])),
            _ => slots,
        }
    }
}

/// The slots after `id` has been deleted.
pub open spec fn after_remove(slots: Seq<Slot>, id: i64) -> Seq<Slot> {
    if tracks(slots, id) {
        slots.remove(position(slots, id))
    } else {
        slots
    }
}

/// `i` holds the smallest access count, and is the earliest slot that does.
pub open spec fn least_used(slots: Seq<Slot>, i: int) -> bool {
    &&& 0 <= i < slots.len()
    &&& forall|j: int| 0 <= j < slots.len() ==> slots[i].hits <= (#[trigger] slots[j]).hits
    &&& forall|j: int| 0 <= j < i ==> slots[i].hits < (#[trigger] slots[j]).hits
}

/// The slot a strategy gives up when room is needed. `pick` is the random
/// draw; only random replacement consults it, and a draw that names no slot
/// counts as the first slot.
pub open spec fn victim_index(kind: Policy, slots: Seq<Slot>, pick: int) -> int {
    match kind {
        Policy::Lfu => choose|i: int| least_used(slots, i),
        Policy::Rr => if 0 <= pick < slots.len() { pick } else { 0 },
        _ => 0,
    }
}

/// Two first occurrences of one identifier are the same slot.
pub proof fn lemma_first_unique(slots: Seq<Slot>, id: i64, i: int, j: int)
    requires
        first_at(slots, id, i),
        first_at(slots, id, j),
    ensures
        i == j,
{
    if i < j {
        assert(slots[i].id != id);
    }
    if j < i {
        assert(slots[j].id != id);
    }
}

/// A tracked identifier has a first slot, and `position` names it.
pub proof fn lemma_position(slots: Seq<Slot>, id: i64)
    requires
        tracks(slots, id),
    ensures
        first_at(slots, id, position(slots, id)),
    decreases slots.len(),
{
    let k = choose|i: int| 0 <= i < slots.len() && (#[trigger] slots[i]).id == id;
    lemma_first_exists(slots, id, k);
}

proof fn lemma_first_exists(slots: Seq<Slot>, id: i64, k: int)
    requires
        0 <= k < slots.len(),
        slots[k].id == id,
    ensures
        exists|i: int| first_at(slots, id, i),
    decreases k,
{
    if exists|j: int| 0 <= j < k && (#[trigger] slots[j]).id == id {
        let j = choose|j: int| 0 <= j < k && (#[trigger] slots[j]).id == id;
        lemma_first_exists(slots, id, j);
    } else {
        assert(first_at(slots, id, k));
    }
}

/// A slot that carries `id` in a duplicate-free sequence is its position.
pub proof fn lemma_position_is(slots: Seq<Slot>, id: i64, i: int)
    requires
        first_at(slots, id, i),
    ensures
        tracks(slots, id),
        position(slots, id) == i,
{
    assert(slots[i].id == id);
    lemma_position(slots, id);
    lemma_first_unique(slots, id, i, position(slots, id));
}

/// Taking one slot out of a duplicate-free sequence leaves it duplicate-free
/// and forgets exactly that slot's identifier.
pub proof fn lemma_remove_slot(slots: Seq<Slot>, p: int)
    requires
        distinct(slots),
        0 <= p < slots.len(),
    ensures
        distinct(slots.remove(p)),
        slots.remove(p).len() == slots.len() - 1,
        forall|id: i64|
            #[trigger] tracks(slots.remove(p), id) <==> tracks(slots, id) && id != slots[p].id,
{
    let r = slots.remove(p);
    assert forall|id: i64| #[trigger] tracks(r, id) <==> tracks(slots, id) && id
        != slots[p].id by {
        if tracks(r, id) {
            let i = choose|i: int| 0 <= i < r.len() && (#[trigger] r[i]).id == id;
            if i < p {
                assert(slots[i].id == id);
            } else {
                assert(slots[i + 1].id == id);
            }
        }
        if tracks(slots, id) && id != slots[p].id {
            let i = choose|i: int| 0 <= i < slots.len() && (#[trigger] slots[i]).id == id;
            if i < p {
                assert(r[i].id == id);
            } else {
                assert(r[i - 1].id == id);
            }
        }
    }
}

/// Appending a slot for an untracked identifier keeps the sequence
/// duplicate-free and tracks exactly one identifier more.
pub proof fn lemma_push_slot(slots: Seq<Slot>, s: Slot)
    requires
        distinct(slots),
        !tracks(slots, s.id),
    ensures
        distinct(slots.push(s)),
        slots.push(s).len() == slots.len() + 1,
        forall|id: i64| #[trigger] tracks(slots.push(s), id) <==> tracks(slots, id) || id == s.id,
{
    let r = slots.push(s);
    assert forall|i: int, j: int| 0 <= i < j < r.len() implies r[i].id != r[j].id by {
        if j == slots.len() {
            assert(slots[i].id != s.id);
        }
    }
    assert forall|id: i64| #[trigger] tracks(r, id) <==> tracks(slots, id) || id == s.id by {
        if tracks(r, id) {
            let i = choose|i: int| 0 <= i < r.len() && (#[trigger] r[i]).id == id;
            if i < slots.len() {
                assert(slots[i].id == id);
            }
        }
        if tracks(slots, id) {
            let i = choose|i: int| 0 <= i < slots.len() && (#[trigger] slots[i]).id == id;
            assert(r[i].id == id);
        }
        if id == s.id {
            assert(r[slots.len() as int].id == id);
        }
    }
}

/// Replacing a slot by one with the same identifier changes neither the
/// tracked identifiers nor their order.
pub proof fn lemma_update_slot(slots: Seq<Slot>, p: int, s: Slot)
    requires
        distinct(slots),
        0 <= p < slots.len(),
        s.id == slots[p].id,
    ensures
        distinct(slots.update(p, s)),
        slots.update(p, s).len() == slots.len(),
        forall|id: i64| #[trigger] tracks(slots.update(p, s), id) <==> tracks(slots, id),
{
    let r = slots.update(p, s);
    assert forall|id: i64| #[trigger] tracks(r, id) <==> tracks(slots, id) by {
        if tracks(r, id) {
            let i = choose|i: int| 0 <= i < r.len() && (#[trigger] r[i]).id == id;
            assert(slots[i].id == id);
        }
        if tracks(slots, id) {
            let i = choose|i: int| 0 <= i < slots.len() && (#[trigger] slots[i]).id == id;
            assert(r[i].id == id);
        }
    }
}

/// In a duplicate-free sequence every slot is the position of its own
/// identifier.
pub proof fn lemma_distinct_position(slots: Seq<Slot>, p: int)
    requires
        distinct(slots),
        0 <= p < slots.len(),
    ensures
        tracks(slots, slots[p].id),
        position(slots, slots[p].id) == p,
{
    assert(first_at(slots, slots[p].id, p));
    lemma_position_is(slots, slots[p].id, p);
}

/// An access keeps the tracked identifiers and their number, whatever the
/// strategy.
pub proof fn lemma_access_keeps_ids(kind: Policy, slots: Seq<Slot>, id: i64)
    requires
        distinct(slots),
    ensures
        distinct(after_access(kind, slots, id)),
        after_access(kind, slots, id).len() == slots.len(),
        forall|other: i64|
            #[trigger] tracks(after_access(kind, slots, id), other) <==> tracks(slots, other),
{
    if tracks(slots, id) {
        lemma_position(slots, id);
        let p = position(slots, id);
        match kind {
            Policy::Lru => {
                lemma_remove_slot(slots, p);
                lemma_push_slot(slots.remove(p), slots[p]);
            },
            Policy::Lfu => {
                lemma_update_slot(slots, p, bumped(slots[p]));
            },
            _ => {},
        }
    }
}

/// A deletion forgets exactly the deleted identifier.
pub proof fn lemma_remove_forgets(slots: Seq<Slot>, id: i64)
    requires
        distinct(slots),
    ensures
        distinct(after_remove(slots, id)),
        after_remove(slots, id).len() == slots.len() - if tracks(slots, id) { 1int } else { 0 },
        forall|other: i64|
            #[trigger] tracks(after_remove(slots, id), other) <==> tracks(slots, other) && other
                != id,
{
    if tracks(slots, id) {
        lemma_position(slots, id);
        lemma_remove_slot(slots, position(slots, id));
    }
}

/// The victim of a non-empty sequence is one of its slots.
pub proof fn lemma_victim_in_range(kind: Policy, slots: Seq<Slot>, pick: int)
    requires
        slots.len() > 0,
    ensures
        0 <= victim_index(kind, slots, pick) < slots.len(),
        kind is Lfu ==> least_used(slots, victim_index(kind, slots, pick)),
{
    if kind is Lfu {
        lemma_least_used_exists(slots, slots.len() as int);
    }
}

proof fn lemma_least_used_exists(slots: Seq<Slot>, n: int)
    requires
        0 < n <= slots.len(),
    ensures
        exists|i: int| least_used(slots.take(n), i),
        n == slots.len() ==> exists|i: int| least_used(slots, i),
    decreases n,
{
    let t = slots.take(n);
    if n == 1 {
        assert(least_used(t, 0));
    } else {
        lemma_least_used_exists(slots, n - 1);
        let u = slots.take(n - 1);
        let b = choose|i: int| least_used(u, i);
        assert(forall|j: int| 0 <= j < n - 1 ==> t[j] == u[j]);
        if t[n - 1].hits < t[b].hits {
            assert forall|j: int| 0 <= j < t.len() implies t[n - 1].hits <= (#[trigger] t[j]).hits by {
                if j < n - 1 {
                    assert(u[b].hits <= u[j].hits);
                }
            }
            assert forall|j: int| 0 <= j < n - 1 implies t[n - 1].hits < (#[trigger] t[j]).hits by {
                assert(u[b].hits <= u[j].hits);
            }
            assert(least_used(t, n - 1));
        } else {
            assert forall|j: int| 0 <= j < t.len() implies t[b].hits <= (#[trigger] t[j]).hits by {
                if j < n - 1 {
                    assert(u[b].hits <= u[j].hits);
                }
            }
            assert forall|j: int| 0 <= j < b implies t[b].hits < (#[trigger] t[j]).hits by {
                assert(u[b].hits < u[j].hits);
            }
            assert(least_used(t, b));
        }
    }
    if n == slots.len() {
        assert(slots.take(n) =~= slots);
    }
}

/// Two least-used slots are the same slot.
pub proof fn lemma_least_used_unique(slots: Seq<Slot>, i: int, j: int)
    requires
        least_used(slots, i),
        least_used(slots, j),
    ensures
        i == j,
{
    if i < j {
        assert(slots[j].hits < slots[i].hits);
        assert(slots[i].hits <= slots[j].hits);
    }
    if j < i {
        assert(slots[i].hits < slots[j].hits);
        assert(slots[j].hits <= slots[i].hits);
    }
}

/// The auxiliary state of a strategy: its kind and its slots in order.
pub struct PolicyState {
    kind: Policy,
    slots: VecDeque<Slot>,
}

impl PolicyState {
    /// The strategy's kind.
    pub closed spec fn kind(&self) -> Policy {
        self.kind
    }

    /// The slots, oldest position first.
    pub closed spec fn slots(&self) -> Seq<Slot> {
        self.slots@
    }

    /// An empty state for the given strategy.
    pub fn new(kind: Policy) -> (state: PolicyState)
        ensures
            state.kind() == kind,
            state.slots() == Seq::<Slot>::empty(),
    {
        PolicyState { kind, slots: VecDeque::new() }
    }

    pub fn policy(&self) -> (kind: Policy)
        ensures
            kind == self.kind(),
    {
        self.kind
    }

    /// The number of tracked identifiers.
    pub fn len(&self) -> (n: usize)
        ensures
            n == self.slots().len(),
    {
        self.slots.len()
    }

    /// The slot at `index`.
    pub fn slot(&self, index: usize) -> (s: Slot)
        requires
            index < self.slots().len(),
        ensures
            s == self.slots()[index as int],
    {
        self.slots[index]
    }

    /// The index of the first slot that carries `id`.
    pub fn find(&self, id: i64) -> (found: Option<usize>)
        ensures
            found is Some <==> tracks(self.slots(), id),
            found is Some ==> found->0 == position(self.slots(), id),
            found is Some ==> first_at(self.slots(), id, found->0 as int),
    {
        let n: usize = self.slots.len();
        let mut i: usize = 0;
        while i < n
            invariant
                n == self.slots@.len(),
                i <= n,
                forall|j: int| 0 <= j < i ==> (#[trigger] self.slots@[j]).id != id,
            decreases n - i,
        {
            if self.slots[i].id == id {
                proof {
                    lemma_position_is(self.slots@, id, i as int);
                }
                return Some(i);
            }
            i += 1;
        }
        None
    }

    /// The access count kept for `id`, where it is tracked.
    pub fn hits(&self, id: i64) -> (count: Option<u64>)
        ensures
            count == if tracks(self.slots(), id) {
                Some(self.slots()[position(self.slots(), id)].hits)
            } else {
                None
            },
    {
        match self.find(id) {
            Some(p) => Some(self.slots[p].hits),
            None => None,
        }
    }

    /// Records that `id` has been admitted.
    pub fn on_insert(&mut self, id: i64)
        ensures
            final(self).kind() == old(self).kind(),
            final(self).slots() == after_insert(old(self).kind(), old(self).slots(), id),
    {
        if self.kind.is_bounded() {
            self.slots.push_back(Slot { id, hits: 0 });
        }
    }

    /// Records that `id` has been read or overwritten.
    pub fn on_access(&mut self, id: i64)
        ensures
            final(self).kind() == old(self).kind(),
            final(self).slots() == after_access(old(self).kind(), old(self).slots(), id),
    {
        if !self.kind.is_access_tracking() {
            return ;
        }
        match self.find(id) {
            None => {},
            Some(p) => {
                let taken = self.slots.remove(p);
                match taken {
                    None => {},
                    Some(s) => {
                        match self.kind {
                            Policy::Lru => {
                                self.slots.push_back(s);
                            },
                            _ => {
                                let hits: u64 = if s.hits < u64::MAX {
                                    s.hits + 1
                                } else {
                                    s.hits
                                };
                                self.slots.insert(p, Slot { id: s.id, hits });
                                assert(self.slots@ =~= old(self).slots@.update(
                                    p as int,
                                    bumped(s),
                                ));
                            },
                        }
                    },
                }
            },
        }
    }

    /// Forgets `id` after an explicit deletion.
    pub fn on_remove(&mut self, id: i64)
        ensures
            final(self).kind() == old(self).kind(),
            final(self).slots() == after_remove(old(self).slots(), id),
    {
        match self.find(id) {
            None => {},
            Some(p) => {
                let _ = self.slots.remove(p);
            },
        }
    }

    /// The slot to give up for the draw `pick`.
    pub fn victim_at(&self, pick: usize) -> (index: usize)
        requires
            self.slots().len() > 0,
        ensures
            index == victim_index(self.kind(), self.slots(), pick as int),
            index < self.slots().len(),
    {
        match self.kind {
            Policy::Lfu => {
                let n: usize = self.slots.len();
                let mut best: usize = 0;
                let mut i: usize = 1;
                while i < n
                    invariant
                        n == self.slots@.len(),
                        1 <= i <= n,
                        best < i,
                        forall|j: int|
                            0 <= j < i ==> self.slots@[best as int].hits <= (
                            #[trigger] self.slots@[j]).hits,
                        forall|j: int|
                            0 <= j < best ==> self.slots@[best as int].hits < (
                            #[trigger] self.slots@[j]).hits,
                    decreases n - i,
                {
                    if self.slots[i].hits < self.slots[best].hits {
                        best = i;
                    }
                    i += 1;
                }
                proof {
                    assert(least_used(self.slots@, best as int));
                    lemma_least_used_unique(
                        self.slots@,
                        best as int,
                        victim_index(self.kind, self.slots@, pick as int),
                    );
                }
                best
            },
            Policy::Rr => {
                if pick < self.slots.len() {
                    pick
                } else {
                    0
                }
            },
            _ => 0,
        }
    }

    /// Picks the slot to give up, drawing at random where the strategy is
    /// random replacement.
    pub fn select_victim(&self) -> (index: usize)
        requires
            self.slots().len() > 0,
        ensures
            index < self.slots().len(),
            exists|pick: int|
                0 <= pick < self.slots().len() && index == #[trigger] victim_index(
                    self.kind(),
                    self.slots(),
                    pick,
                ),
    {
        let pick: usize = match self.kind {
            Policy::Rr => random_below(self.slots.len()),
            _ => 0,
        };
        let index = self.victim_at(pick);
        assert(index == victim_index(self.kind(), self.slots(), pick as int));
        index
    }

    /// Gives up the slot at `index` and returns it.
    pub fn evict(&mut self, index: usize) -> (gone: Slot)
        requires
            index < old(self).slots().len(),
        ensures
            final(self).kind() == old(self).kind(),
            final(self).slots() == old(self).slots().remove(index as int),
            gone == old(self).slots()[index as int],
    {
        let gone = self.slots[index];
        let _ = self.slots.remove(index);
        gone
    }

    /// Forgets every identifier.
    pub fn clear(&mut self)
        ensures
            final(self).kind() == old(self).kind(),
            final(self).slots() == Seq::<Slot>::empty(),
    {
        self.slots.clear();
    }
}

} // verus!
