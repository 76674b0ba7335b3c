//! What holds of every cache, whatever is done to it.

use crate::model::{
    lemma_admitted_wf, lemma_cleared_wf, lemma_draw_unused, lemma_empty_wf, lemma_inserted_wf,
    lemma_removed_wf, lemma_touched_wf, lemma_victim_stored, CacheModel,
};
use crate::policy::{slot_ids, tracks};
use crate::types::{CacheError, Entry, Policy};
use vstd::prelude::*;

verus! {

/// One operation on a cache. The integer with an offered entry is the draw
/// that random replacement consults.
pub enum Step {
    Insert(Entry, int),
    SetDefault(Entry, int),
    Get(i64),
    Remove(i64),
    Clear,
}

/// The cache after one operation.
pub open spec fn step(m: CacheModel, s: Step) -> CacheModel {
    match s {
        Step::Insert(entry, pick) => m.inserted(entry, pick),
        Step::SetDefault(entry, pick) => m.defaulted(entry, pick),
        Step::Get(id) => m.touched(id),
        Step::Remove(id) => m.removed(id),
        Step::Clear => m.cleared(),
    }
}

/// The cache after a sequence of operations.
pub open spec fn run(m: CacheModel, steps: Seq<Step>) -> CacheModel
    decreases steps.len(),
{
    if steps.len() == 0 {
        m
    } else {
        step(run(m, steps.drop_last()), steps.last())
    }
}

/// Every operation keeps the invariant, the strategy and the limit.
pub proof fn law_step_keeps_invariant(m: CacheModel, s: Step)
    requires
        m.wf(),
    ensures
        step(m, s).wf(),
        step(m, s).kind == m.kind,
        step(m, s).maxsize == m.maxsize,
{
    match s {
        Step::Insert(entry, pick) => {
            lemma_inserted_wf(m, entry, pick);
        },
        Step::SetDefault(entry, pick) => {
            lemma_inserted_wf(m, entry, pick);
            lemma_touched_wf(m, entry.id);
        },
        Step::Get(id) => {
            lemma_touched_wf(m, id);
        },
        Step::Remove(id) => {
            lemma_removed_wf(m, id);
        },
        Step::Clear => {
            lemma_cleared_wf(m);
        },
    }
}

/// A cache that started empty satisfies the invariant after any sequence
/// of operations.
pub proof fn law_run_keeps_invariant(kind: Policy, maxsize: nat, steps: Seq<Step>)
    ensures
        run(CacheModel::empty(kind, maxsize), steps).wf(),
        run(CacheModel::empty(kind, maxsize), steps).kind == kind,
        run(CacheModel::empty(kind, maxsize), steps).maxsize == maxsize,
    decreases steps.len(),
{
    if steps.len() == 0 {
        lemma_empty_wf(kind, maxsize);
    } else {
        law_run_keeps_invariant(kind, maxsize, steps.drop_last());
        law_step_keeps_invariant(run(CacheModel::empty(kind, maxsize), steps.drop_last()), steps.last());
    }
}

/// A cache with a limit never holds more entries than its limit, after any
/// sequence of operations and under any strategy.
pub proof fn law_capacity(kind: Policy, maxsize: nat, steps: Seq<Step>)
    requires
        maxsize != 0,
    ensures
        run(CacheModel::empty(kind, maxsize), steps).len() <= maxsize,
{
    law_run_keeps_invariant(kind, maxsize, steps);
}

/// In a cache that satisfies the invariant under a bounded strategy, the
/// identifiers of the slots are those of the table, each in one slot.
pub proof fn law_slots_mirror_table(m: CacheModel)
    requires
        m.wf(),
        m.kind.bounded(),
    ensures
        slot_ids(m.slots).no_duplicates(),
        slot_ids(m.slots).to_set() == m.table.dom(),
        slot_ids(m.slots).len() == m.len(),
{
    let ids = slot_ids(m.slots);
    assert forall|id: i64| ids.to_set().contains(id) <==> m.table.dom().contains(id) by {
        if ids.to_set().contains(id) {
            let i = choose|i: int| 0 <= i < ids.len() && ids[i] == id;
            assert(m.slots[i].id == id);
            assert(tracks(m.slots, id));
        }
        if m.table.contains_key(id) {
            assert(tracks(m.slots, id));
            let i = choose|i: int| 0 <= i < m.slots.len() && (#[trigger] m.slots[i]).id == id;
            assert(ids[i] == id);
        }
    }
    assert(ids.to_set() =~= m.table.dom());
}

/// Under a bounded strategy the identifiers that the strategy tracks are
/// exactly the stored ones, after any sequence of operations.
pub proof fn law_bijection(kind: Policy, maxsize: nat, steps: Seq<Step>)
    requires
        kind.bounded(),
    ensures
        slot_ids(run(CacheModel::empty(kind, maxsize), steps).slots).no_duplicates(),
        slot_ids(run(CacheModel::empty(kind, maxsize), steps).slots).to_set() == run(
            CacheModel::empty(kind, maxsize),
            steps,
        ).table.dom(),
{
    law_run_keeps_invariant(kind, maxsize, steps);
    law_slots_mirror_table(run(CacheModel::empty(kind, maxsize), steps));
}

/// An eviction replaces one entry by one: the victim is a stored
/// identifier, it is the only one to leave, and the number of entries
/// stays.
pub proof fn law_eviction_replaces_one(m: CacheModel, entry: Entry, pick: int)
    requires
        m.wf(),
        m.evicts(entry.id),
    ensures
        m.contains(m.victim(pick)),
        m.inserted(entry, pick).table == m.table.remove(m.victim(pick)).insert(entry.id, entry),
        m.inserted(entry, pick).len() == m.len(),
        m.insert_yield(entry, pick) == Ok::<Option<Entry>, CacheError>(
            Some(m.table[m.victim(pick)]),
        ),
{
    lemma_victim_stored(m, pick);
    lemma_removed_wf(m, m.victim(pick));
    lemma_admitted_wf(m.removed(m.victim(pick)), entry);
}

/// Offering an entry under a stored identifier never evicts: the stored
/// identifiers stay the same, and the key handle is the one stored first.
pub proof fn law_overwrite_keeps_entries(m: CacheModel, entry: Entry, pick: int)
    requires
        m.wf(),
        m.contains(entry.id),
    ensures
        m.inserted(entry, pick).table.dom() == m.table.dom(),
        m.inserted(entry, pick).table[entry.id].key_handle == m.table[entry.id].key_handle,
        m.inserted(entry, pick).table[entry.id].value_handle == entry.value_handle,
        forall|id: i64|
            id != entry.id && m.contains(id) ==> #[trigger] m.inserted(entry, pick).table[id]
                == m.table[id],
{
    assert(m.inserted(entry, pick).table.dom() =~= m.table.dom());
}

/// A cache that does not evict refuses a new identifier exactly when it is
/// full, and is left as it was.
pub proof fn law_refusal_changes_nothing(m: CacheModel, entry: Entry, pick: int)
    requires
        m.wf(),
    ensures
        m.insert_yield(entry, pick) is Err <==> m.kind is Plain && m.full() && !m.contains(
            entry.id,
        ),
        m.insert_yield(entry, pick) is Err ==> m.inserted(entry, pick) == m,
        m.maxsize == 0 ==> m.insert_yield(entry, pick) is Ok,
{
}

/// A bulk update under a strategy other than random replacement does the
/// same whatever the draws.
pub proof fn law_update_draws_unused(
    m: CacheModel,
    source: Seq<Option<Entry>>,
    picks: Seq<int>,
    others: Seq<int>,
    n: nat,
)
    requires
        !(m.kind is Rr),
    ensures
        m.applied(source, picks, n) == m.applied(source, others, n),
        m.displaced(source, picks, n) == m.displaced(source, others, n),
        m.applied(source, picks, n).kind == m.kind,
    decreases n,
{
    if n > 0 {
        law_update_draws_unused(m, source, picks, others, (n - 1) as nat);
        lemma_draw_unused(
            m.applied(source, picks, (n - 1) as nat),
            source[n - 1]->0,
            picks[n - 1],
            others[n - 1],
        );
    }
}

/// Clearing twice is clearing once, and a cleared cache is empty.
pub proof fn law_clear_idempotent(m: CacheModel)
    ensures
        m.cleared().len() == 0,
        m.cleared().cleared() == m.cleared(),
        m.cleared().wf(),
{
}

/// Two caches compare equal exactly when their limits are the same and the
/// identifiers of the first are among those of the second. So every cache
/// equals itself, and a cache equals any cache with the same limit that
/// stores more.
pub proof fn law_equality_one_directional(x: CacheModel, y: CacheModel)
    ensures
        x.agrees(y) <==> x.maxsize == y.maxsize && x.table.dom().subset_of(y.table.dom()),
        x.agrees(x),
{
    if x.maxsize == y.maxsize && x.table.dom().subset_of(y.table.dom()) {
        assert forall|id: i64| #[trigger] x.contains(id) implies y.contains(id) by {
            assert(x.table.dom().contains(id));
        }
    }
    if x.agrees(y) {
        assert forall|id: i64| x.table.dom().contains(id) implies y.table.dom().contains(id) by {
            assert(x.contains(id));
        }
    }
}

} // verus!
