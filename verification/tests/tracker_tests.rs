use ashmem::tracker::Tracker;

fn ranges_of(t: &Tracker, obj: usize) -> Vec<(usize, usize, bool)> {
    t.objects[obj].ranges.iter().map(|r| (r.pgstart, r.pgend, r.purged)).collect()
}

fn lru_ids(t: &Tracker) -> Vec<(usize, usize, usize)> {
    t.lru.entries.iter().map(|e| (e.obj, e.pgstart, e.pgend)).collect()
}

fn check_invariants(t: &Tracker) {
    // disjointness: strictly descending, never touching
    for a in &t.objects {
        for w in a.ranges.windows(2) {
            assert!(w[1].pgend + 2 <= w[0].pgstart, "entries touch or overlap");
        }
        for r in &a.ranges {
            assert!(r.pgstart <= r.pgend);
        }
    }
    // accounting: the running total is the sum of the queue members
    let sum: usize = t.lru.entries.iter().map(|e| e.pgend - e.pgstart + 1).sum();
    assert_eq!(t.lru.count, sum);
    // the queue holds exactly the non-purged ranges
    let mut live = 0;
    for (obj, a) in t.objects.iter().enumerate() {
        for r in &a.ranges {
            if !r.purged {
                live += 1;
                assert!(
                    t.lru.entries.iter().any(|e| e.obj == obj && e.pgstart == r.pgstart
                        && e.pgend == r.pgend),
                    "non-purged range missing from the queue"
                );
            }
        }
    }
    assert_eq!(t.lru.entries.len(), live);
}

#[test]
fn unpin_then_partial_pin() {
    // object with pages 0..=15: unpin all, then pin the middle
    let mut t = Tracker::new();
    let obj = t.open_object();
    t.unpin(obj, 0, 15);
    assert_eq!(ranges_of(&t, obj), vec![(0, 15, false)]);
    assert_eq!(t.lru_count(), 16);
    check_invariants(&t);

    let was_purged = t.pin(obj, 4, 7);
    assert!(!was_purged);
    assert_eq!(ranges_of(&t, obj), vec![(8, 15, false), (0, 3, false)]);
    assert_eq!(t.lru_count(), 12);
    check_invariants(&t);
}

#[test]
fn adjacent_unpins_merge() {
    let mut t = Tracker::new();
    let obj = t.open_object();
    t.unpin(obj, 0, 5);
    t.unpin(obj, 6, 10);
    assert_eq!(ranges_of(&t, obj), vec![(0, 10, false)]);
    assert_eq!(t.lru_count(), 11);
    check_invariants(&t);
}

#[test]
fn overlapping_unpins_merge() {
    let mut t = Tracker::new();
    let obj = t.open_object();
    t.unpin(obj, 0, 5);
    t.unpin(obj, 20, 30);
    t.unpin(obj, 3, 22);
    assert_eq!(ranges_of(&t, obj), vec![(0, 30, false)]);
    assert_eq!(t.lru_count(), 31);
    check_invariants(&t);
}

#[test]
fn unpin_idempotent() {
    let mut t = Tracker::new();
    let obj = t.open_object();
    t.unpin(obj, 2, 9);
    let before_ranges = ranges_of(&t, obj);
    let before_lru = lru_ids(&t);
    let before_count = t.lru_count();
    // unpinning an already fully unpinned range changes nothing
    t.unpin(obj, 4, 7);
    assert_eq!(ranges_of(&t, obj), before_ranges);
    assert_eq!(lru_ids(&t), before_lru);
    assert_eq!(t.lru_count(), before_count);
    check_invariants(&t);
}

#[test]
fn unpin_pin_round_trip() {
    let mut t = Tracker::new();
    let obj = t.open_object();
    t.unpin(obj, 0, 3);
    t.unpin(obj, 20, 25);
    let before = ranges_of(&t, obj);
    // a fresh range, previously fully pinned and not adjacent to others
    t.unpin(obj, 8, 11);
    let was_purged = t.pin(obj, 8, 11);
    assert!(!was_purged);
    assert_eq!(ranges_of(&t, obj), before);
    check_invariants(&t);
}

#[test]
fn pin_hole_punch() {
    let mut t = Tracker::new();
    let obj = t.open_object();
    t.unpin(obj, 0, 15);
    t.pin(obj, 5, 9);
    assert_eq!(ranges_of(&t, obj), vec![(10, 15, false), (0, 4, false)]);
    // the upper piece of a hole punch is the most recently unpinned
    assert_eq!(lru_ids(&t)[0], (obj, 10, 15));
    check_invariants(&t);
}

#[test]
fn pin_edges_shrink_in_place() {
    let mut t = Tracker::new();
    let obj = t.open_object();
    t.unpin(obj, 10, 19);
    t.unpin(obj, 30, 39);
    // overlap the front of [30, 39] and the rear of [10, 19]
    t.pin(obj, 35, 50);
    t.pin(obj, 5, 12);
    assert_eq!(ranges_of(&t, obj), vec![(30, 34, false), (13, 19, false)]);
    assert_eq!(t.lru_count(), 12);
    check_invariants(&t);
}

#[test]
fn pin_swallows_ranges() {
    let mut t = Tracker::new();
    let obj = t.open_object();
    t.unpin(obj, 0, 3);
    t.unpin(obj, 6, 9);
    t.unpin(obj, 12, 15);
    assert_eq!(ranges_of(&t, obj).len(), 3);
    let was_purged = t.pin(obj, 0, 20);
    assert!(!was_purged);
    assert_eq!(ranges_of(&t, obj), vec![]);
    assert_eq!(t.lru_count(), 0);
    check_invariants(&t);
}

#[test]
fn reclaim_takes_the_oldest_first() {
    let mut t = Tracker::new();
    let a = t.open_object();
    let b = t.open_object();
    // the size-3 range is unpinned first, so it sits at the queue's back
    t.unpin(a, 0, 2);
    t.unpin(b, 0, 9);
    assert_eq!(t.lru_count(), 13);

    // a budget of 3 frees exactly the oldest, size-3 entry
    let (freed, discards) = t.free_lru(3, false);
    assert_eq!(freed, 3);
    assert_eq!(discards.len(), 1);
    assert_eq!(discards[0].obj, a);
    assert_eq!(discards[0].byte_start, 0);
    assert_eq!(discards[0].byte_len, 3 * 4096);
    assert_eq!(t.lru_count(), 10);
    assert_eq!(ranges_of(&t, a), vec![(0, 2, true)]);
    assert_eq!(ranges_of(&t, b), vec![(0, 9, false)]);
    check_invariants(&t);
}

#[test]
fn reclaim_keeps_evicting_until_the_budget_is_reached() {
    let mut t = Tracker::new();
    let a = t.open_object();
    let b = t.open_object();
    t.unpin(a, 0, 2);
    t.unpin(b, 0, 9);
    // after the size-3 entry the pass is still under its budget of 5, so
    // the size-10 entry goes too
    let (freed, discards) = t.free_lru(5, false);
    assert_eq!(freed, 13);
    assert_eq!(discards.len(), 2);
    assert_eq!(discards[0].obj, a);
    assert_eq!(discards[1].obj, b);
    assert_eq!(t.lru_count(), 0);
    check_invariants(&t);
}

#[test]
fn reclaim_with_no_budget_evicts_nothing() {
    let mut t = Tracker::new();
    let a = t.open_object();
    t.unpin(a, 0, 2);
    let (freed, discards) = t.free_lru(0, false);
    assert_eq!(freed, 0);
    assert!(discards.is_empty());
    assert_eq!(t.lru_count(), 3);
    check_invariants(&t);
}

#[test]
fn reclaim_stop_early_bounds_the_pass() {
    let mut t = Tracker::new();
    let a = t.open_object();
    t.unpin(a, 0, 2);
    t.unpin(a, 10, 19);
    // the cooperative stop signal limits the pass to one eviction
    let (freed, discards) = t.free_lru(usize::MAX, true);
    assert_eq!(freed, 3);
    assert_eq!(discards.len(), 1);
    check_invariants(&t);
}

#[test]
fn purge_stickiness() {
    let mut t = Tracker::new();
    let obj = t.open_object();
    t.unpin(obj, 0, 7);
    let (freed, _discards) = t.free_lru(8, false);
    assert_eq!(freed, 8);
    // a status query over the evicted range still answers unpinned
    assert!(t.range_has_unpinned_page(obj, 0, 7));
    assert!(t.range_has_unpinned_page(obj, 3, 3));
    // and a pin over it reports that the data was purged
    let was_purged = t.pin(obj, 0, 7);
    assert!(was_purged);
    assert!(!t.range_has_unpinned_page(obj, 0, 7));
    check_invariants(&t);
}

#[test]
fn purged_flag_spreads_on_merge_but_never_clears() {
    let mut t = Tracker::new();
    let obj = t.open_object();
    t.unpin(obj, 0, 3);
    let (freed, _d) = t.free_lru(4, false);
    assert_eq!(freed, 4);
    assert_eq!(ranges_of(&t, obj), vec![(0, 3, true)]);
    // merging with a purged neighbour marks the union purged, and the
    // union is not queued again
    t.unpin(obj, 4, 7);
    assert_eq!(ranges_of(&t, obj), vec![(0, 7, true)]);
    assert_eq!(t.lru_count(), 0);
    check_invariants(&t);
}

#[test]
fn disjoint_objects_do_not_interfere() {
    let mut t = Tracker::new();
    let a = t.open_object();
    let b = t.open_object();
    t.unpin(a, 0, 5);
    let a_ranges = ranges_of(&t, a);
    t.unpin(b, 100, 200);
    t.pin(b, 150, 160);
    assert_eq!(ranges_of(&t, a), a_ranges);
    t.pin(a, 0, 5);
    assert_eq!(ranges_of(&t, b), vec![(161, 200, false), (100, 149, false)]);
    check_invariants(&t);
}

#[test]
fn release_object_drops_its_queue_entries() {
    let mut t = Tracker::new();
    let a = t.open_object();
    let b = t.open_object();
    t.unpin(a, 0, 5);
    t.unpin(b, 0, 9);
    assert_eq!(t.lru_count(), 16);
    t.release_object(a);
    assert_eq!(ranges_of(&t, a), vec![]);
    assert_eq!(ranges_of(&t, b), vec![(0, 9, false)]);
    assert_eq!(t.lru_count(), 10);
    check_invariants(&t);
}

#[test]
fn merging_a_purged_hole_does_not_double_count() {
    let mut t = Tracker::new();
    let obj = t.open_object();
    t.unpin(obj, 0, 3);
    let (freed, _d) = t.free_lru(4, false);
    assert_eq!(freed, 4);
    t.unpin(obj, 10, 13);
    assert_eq!(t.lru_count(), 4);
    // the union absorbs a purged hole and a live range: the merged entry
    // counts as already purged, so the pages leave the accounting
    t.unpin(obj, 2, 11);
    assert_eq!(ranges_of(&t, obj), vec![(0, 13, true)]);
    assert_eq!(t.lru_count(), 0);
    check_invariants(&t);
}

#[test]
fn pin_over_mixed_ranges_reports_purged_and_keeps_flags() {
    let mut t = Tracker::new();
    let obj = t.open_object();
    t.unpin(obj, 0, 3);
    let (freed, _d) = t.free_lru(4, false);
    assert_eq!(freed, 4);
    t.unpin(obj, 10, 13);
    // the pin overlaps a purged and a live range
    let was_purged = t.pin(obj, 2, 11);
    assert!(was_purged);
    assert_eq!(ranges_of(&t, obj), vec![(12, 13, false), (0, 1, true)]);
    assert_eq!(t.lru_count(), 2);
    // a second pin over only live pages reports nothing purged
    let was_purged = t.pin(obj, 12, 13);
    assert!(!was_purged);
    check_invariants(&t);
}

#[test]
fn ranges_at_the_page_cap() {
    let cap = usize::MAX / 4096 - 1;
    let mut t = Tracker::new();
    let obj = t.open_object();
    t.unpin(obj, cap - 1, cap);
    assert_eq!(ranges_of(&t, obj), vec![(cap - 1, cap, false)]);
    assert_eq!(t.lru_count(), 2);
    let (freed, discards) = t.free_lru(2, false);
    assert_eq!(freed, 2);
    assert_eq!(discards[0].byte_start, (cap - 1) * 4096);
    assert_eq!(discards[0].byte_len, 2 * 4096);
    check_invariants(&t);
}

#[test]
fn get_pin_status_queries() {
    let mut t = Tracker::new();
    let obj = t.open_object();
    assert!(!t.range_has_unpinned_page(obj, 0, 100));
    t.unpin(obj, 10, 19);
    assert!(t.range_has_unpinned_page(obj, 0, 10));
    assert!(t.range_has_unpinned_page(obj, 19, 30));
    assert!(t.range_has_unpinned_page(obj, 12, 13));
    assert!(!t.range_has_unpinned_page(obj, 0, 9));
    assert!(!t.range_has_unpinned_page(obj, 20, 30));
}
