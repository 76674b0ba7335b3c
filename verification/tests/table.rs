use cachebox::cache::{footprint, reservation, HANDLE_BYTES, ID_BYTES};
use cachebox::{Admission, Cache, CacheError, Entry, Handle, Policy, UpdateReport};

fn h(token: u64) -> Handle {
    Handle { token }
}

fn e(id: i64) -> Entry {
    Entry { id, key_handle: h(id as u64 * 10), value_handle: h(id as u64 * 10 + 1) }
}

fn filled(kind: Policy, maxsize: usize, ids: &[i64]) -> Cache {
    let mut cache = Cache::with_policy(kind, maxsize, 0);
    for id in ids {
        cache.insert(*id, e(*id).key_handle, e(*id).value_handle).unwrap();
    }
    cache
}

fn sorted_ids(cache: &Cache) -> Vec<i64> {
    let mut out: Vec<i64> = cache.items().iter().map(|x| x.id).collect();
    out.sort();
    out
}

#[test]
fn a_new_cache_is_empty() {
    let cache = Cache::new(3, 10);
    assert_eq!(cache.len(), 0);
    assert!(cache.is_empty());
    assert_eq!(cache.maxsize(), 3);
    assert_eq!(cache.getmaxsize(), 3);
    assert_eq!(cache.policy(), Policy::Plain);
    assert!(!cache.contains(0));
    assert_eq!(cache.items(), vec![]);
    let other = Cache::with_policy(Policy::Lfu, 0, 0);
    assert_eq!(other.policy(), Policy::Lfu);
    assert_eq!(other.maxsize(), 0);
}

#[test]
fn a_capacity_hint_sets_room_aside() {
    let cache = Cache::new(0, 64);
    assert!(cache.capacity() >= 64);
    let limited = Cache::new(4, 1000);
    assert!(limited.capacity() >= 4);
    assert!(limited.capacity() < 1000);
    let huge = Cache::new(0, usize::MAX);
    assert_eq!(huge.len(), 0);
}

#[test]
fn reads_find_what_was_stored() {
    let mut cache = filled(Policy::Plain, 0, &[1, 2]);
    assert!(cache.contains(1));
    assert!(!cache.contains(3));
    assert_eq!(cache.peek(2), Some(e(2)));
    assert_eq!(cache.peek(3), None);
    assert_eq!(cache.get(1), Some(e(1)));
    assert_eq!(cache.get(3), None);
    assert_eq!(cache.get_item(2), Ok(h(21)));
    assert_eq!(cache.get_item(3), Err(CacheError::NotFound));
    assert_eq!(cache.get_or(1, h(5)), h(11));
    assert_eq!(cache.get_or(3, h(5)), h(5));
    assert_eq!(cache.len(), 2);
}

#[test]
fn removal_hands_the_entry_back() {
    let mut cache = filled(Policy::Lru, 0, &[1, 2, 3, 4]);
    assert_eq!(cache.remove(2), Some(e(2)));
    assert_eq!(cache.remove(2), None);
    assert_eq!(cache.delete(3), Ok(e(3)));
    assert_eq!(cache.delete(3), Err(CacheError::NotFound));
    assert_eq!(cache.pop(4, Some(h(0))), (Some(h(41)), Some(e(4))));
    assert_eq!(cache.pop(4, Some(h(0))), (Some(h(0)), None));
    assert_eq!(cache.pop(4, None), (None, None));
    assert_eq!(sorted_ids(&cache), vec![1]);
    assert_eq!(cache.hits(2), None);
    assert_eq!(cache.hits(1), Some(0));
}

#[test]
fn popitem_is_not_offered() {
    let cache = filled(Policy::Fifo, 0, &[1]);
    assert_eq!(cache.popitem(), Err(CacheError::NotImplemented));
    assert_eq!(cache.len(), 1);
}

#[test]
fn setdefault_returns_the_resident_or_admits_the_default() {
    let mut cache = filled(Policy::Lru, 2, &[1, 2]);
    assert_eq!(
        cache.setdefault(1, h(0), h(0)),
        Ok(Admission { entry: e(1), evicted: None })
    );
    assert_eq!(cache.peek(1), Some(e(1)));
    assert_eq!(
        cache.setdefault(3, h(30), h(31)),
        Ok(Admission { entry: e(3), evicted: Some(e(2)) })
    );
    assert_eq!(sorted_ids(&cache), vec![1, 3]);
    let mut roomy = Cache::with_policy(Policy::Fifo, 0, 0);
    assert_eq!(
        roomy.setdefault(7, h(70), h(71)),
        Ok(Admission { entry: e(7), evicted: None })
    );
    assert_eq!(
        roomy.setdefault_with(8, h(80), h(81), 3),
        Ok(Admission { entry: e(8), evicted: None })
    );
}

#[test]
fn setdefault_fails_only_on_a_full_plain_cache() {
    let mut cache = filled(Policy::Plain, 2, &[1, 2]);
    assert_eq!(cache.setdefault(3, h(30), h(31)), Err(CacheError::CapacityExceeded));
    assert_eq!(sorted_ids(&cache), vec![1, 2]);
    assert_eq!(
        cache.setdefault(2, h(0), h(0)),
        Ok(Admission { entry: e(2), evicted: None })
    );
}

#[test]
fn clear_empties_the_cache_either_way() {
    let mut cache = filled(Policy::Lfu, 0, &[1, 2, 3, 4, 5, 6, 7, 8, 9, 10]);
    cache.clear(false);
    assert_eq!(cache.len(), 0);
    assert!(cache.is_empty());
    cache.clear(true);
    assert_eq!(cache.len(), 0);
    assert_eq!(cache.hits(1), None);
    assert_eq!(cache.items(), vec![]);
    assert_eq!(cache.maxsize(), 0);
    assert_eq!(cache.policy(), Policy::Lfu);
}

#[test]
fn clear_with_reuse_keeps_the_room() {
    let mut cache = filled(Policy::Fifo, 0, &[1, 2, 3, 4, 5, 6, 7, 8, 9, 10]);
    let before = cache.capacity();
    assert!(before >= 10);
    cache.clear(true);
    assert_eq!(cache.len(), 0);
    assert!(cache.capacity() >= before);
    cache.insert(1, h(1), h(2)).unwrap();
    assert_eq!(cache.len(), 1);
}

#[test]
fn reserve_and_shrink_leave_the_contents_alone() {
    let mut cache = filled(Policy::Lru, 0, &[1, 2, 3]);
    assert_eq!(cache.reserve(100), Ok(()));
    assert!(cache.capacity() >= 103);
    assert_eq!(sorted_ids(&cache), vec![1, 2, 3]);
    cache.shrink_to_fit();
    assert!(cache.capacity() >= 3);
    assert!(cache.capacity() < 103);
    assert_eq!(sorted_ids(&cache), vec![1, 2, 3]);
    assert_eq!(cache.peek(2), Some(e(2)));
}

#[test]
fn reserve_reports_a_request_that_cannot_be_met() {
    let mut cache = filled(Policy::Plain, 0, &[1, 2]);
    assert_eq!(cache.reserve(usize::MAX), Err(CacheError::AllocationFailure));
    assert_eq!(sorted_ids(&cache), vec![1, 2]);
    assert_eq!(cache.peek(1), Some(e(1)));
}

#[test]
fn reservation_maps_the_outcome() {
    let mut v: Vec<u64> = Vec::new();
    assert_eq!(reservation(v.try_reserve(4)), Ok(()));
    assert_eq!(reservation(v.try_reserve(usize::MAX)), Err(CacheError::AllocationFailure));
}

#[test]
fn memory_size_follows_the_capacity() {
    assert_eq!(ID_BYTES, 8);
    assert_eq!(HANDLE_BYTES, 8);
    assert_eq!(footprint(0), 8);
    assert_eq!(footprint(10), 248);
    assert_eq!(footprint(usize::MAX), usize::MAX as u128 * 24 + 8);
    let cache = filled(Policy::Plain, 0, &[1, 2, 3]);
    assert_eq!(cache.memory_size(), footprint(cache.capacity()));
    assert!(cache.memory_size() >= 3 * 24 + 8);
}

#[test]
fn equality_looks_one_way_only() {
    let x = filled(Policy::Plain, 5, &[1, 2]);
    let y = filled(Policy::Plain, 5, &[1, 2, 3]);
    assert!(x.eq(&y));
    assert!(!y.eq(&x));
    assert!(x.eq(&x));
    assert!(!x.ne(&y));
    assert!(!y.ne(&x));
}

#[test]
fn equality_ignores_values_and_needs_the_same_limit() {
    let mut x = filled(Policy::Plain, 5, &[1, 2]);
    let y = filled(Policy::Plain, 5, &[1, 2]);
    x.insert(1, h(0), h(77)).unwrap();
    assert!(x.eq(&y));
    let z = filled(Policy::Plain, 6, &[1, 2]);
    assert!(!x.eq(&z));
    assert!(x.ne(&z));
    let w = filled(Policy::Lru, 5, &[2, 1]);
    assert!(x.eq(&w));
    assert!(w.eq(&x));
}

#[test]
fn inequality_is_not_the_negation_of_equality() {
    let x = filled(Policy::Plain, 5, &[1, 2]);
    let part = filled(Policy::Plain, 5, &[1]);
    assert!(!x.eq(&part));
    assert!(!x.ne(&part));
    let apart = filled(Policy::Plain, 5, &[8, 9]);
    assert!(!x.eq(&apart));
    assert!(x.ne(&apart));
    let empty = Cache::new(5, 0);
    assert!(empty.eq(&x));
    assert!(empty.ne(&x));
}

#[test]
fn snapshots_list_every_entry_once() {
    let cache = filled(Policy::Plain, 0, &[3, 1, 2]);
    let mut items = cache.items();
    items.sort_by_key(|x| x.id);
    assert_eq!(items, vec![e(1), e(2), e(3)]);
    let mut keys: Vec<u64> = cache.keys().iter().map(|k| k.token).collect();
    keys.sort();
    assert_eq!(keys, vec![10, 20, 30]);
    let mut values: Vec<u64> = cache.values().iter().map(|k| k.token).collect();
    values.sort();
    assert_eq!(values, vec![11, 21, 31]);
}

#[test]
fn snapshots_of_a_bounded_cache_follow_its_order() {
    let mut cache = filled(Policy::Lru, 0, &[3, 1, 2]);
    cache.get(3);
    assert_eq!(cache.items(), vec![e(1), e(2), e(3)]);
    assert_eq!(cache.keys(), vec![h(10), h(20), h(30)]);
    assert_eq!(cache.values(), vec![h(11), h(21), h(31)]);
    let fifo = filled(Policy::Fifo, 0, &[3, 1, 2]);
    assert_eq!(fifo.keys(), vec![h(30), h(10), h(20)]);
}

#[test]
fn a_snapshot_does_not_follow_later_changes() {
    let mut cache = filled(Policy::Fifo, 3, &[1, 2, 3]);
    let keys = cache.keys();
    let items = cache.items();
    cache.insert(4, h(40), h(41)).unwrap();
    cache.remove(2);
    cache.insert(3, h(0), h(99)).unwrap();
    assert_eq!(keys, vec![h(10), h(20), h(30)]);
    assert_eq!(keys.len(), 3);
    assert_eq!(items, vec![e(1), e(2), e(3)]);
    assert_eq!(cache.keys(), vec![h(30), h(40)]);
}

#[test]
fn update_applies_every_item() {
    let mut cache = Cache::with_policy(Policy::Fifo, 2, 0);
    let source = vec![Some(e(1)), Some(e(2)), Some(e(3)), Some(Entry { id: 2, key_handle: h(0), value_handle: h(5) })];
    let report = cache.update(&source);
    assert_eq!(
        report,
        UpdateReport { applied: 4, displaced: vec![e(1), e(2)], failure: None }
    );
    assert_eq!(cache.items(), vec![Entry { id: 2, key_handle: h(20), value_handle: h(5) }, e(3)]);
    let nothing = cache.update(&vec![]);
    assert_eq!(nothing, UpdateReport { applied: 0, displaced: vec![], failure: None });
}

#[test]
fn update_stops_where_the_source_fails() {
    let mut cache = Cache::new(0, 0);
    let report = cache.update(&vec![Some(e(1)), Some(e(2)), None, Some(e(4))]);
    assert_eq!(
        report,
        UpdateReport { applied: 2, displaced: vec![], failure: Some(CacheError::SourceFailed) }
    );
    assert_eq!(sorted_ids(&cache), vec![1, 2]);
}

#[test]
fn update_stops_where_the_cache_refuses() {
    let mut cache = Cache::new(2, 0);
    let report = cache.update(&vec![Some(e(1)), Some(e(2)), Some(e(1)), Some(e(3)), Some(e(2))]);
    assert_eq!(
        report,
        UpdateReport {
            applied: 3,
            displaced: vec![e(1)],
            failure: Some(CacheError::CapacityExceeded),
        }
    );
    assert_eq!(sorted_ids(&cache), vec![1, 2]);
}

#[test]
fn update_under_random_replacement_keeps_the_limit() {
    let mut cache = Cache::with_policy(Policy::Rr, 3, 0);
    let source: Vec<Option<Entry>> = (0..20).map(|id| Some(e(id))).collect();
    let report = cache.update(&source);
    assert_eq!(report.applied, 20);
    assert_eq!(report.failure, None);
    assert_eq!(report.displaced.len(), 17);
    assert_eq!(cache.len(), 3);
    for gone in &report.displaced {
        assert!(!cache.contains(gone.id));
    }
}
