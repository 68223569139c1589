//! The lock-protected tracker state: every object's area of unpinned
//! ranges and the global reclaim queue, kept consistent.
//!
//! All mutation of this state is serialized by one process-wide lock held
//! by the caller; the embedding layer acquires it blockingly for pin,
//! unpin and status calls, and non-blockingly on the reclaim path, handing
//! this crate the state by exclusive reference. Because every entry point
//! takes `&mut Tracker` (or `&Tracker`), concurrent callers can never
//! observe another caller's intermediate state, and every entry point
//! proves the disjointness and accounting invariants are preserved.

use vstd::prelude::*;
use crate::area::{
    any_purged_touching, area_wf, covers, lemma_disjoint_pairs, lemma_extents_covers,
    lemma_overlap_is_covered_page, lemma_purged_overlap_is_purged_page, lemma_unique_cover,
    lemma_wf_separated, purged_at, same_entry, Area,
};
use crate::lru::{
    entries_wf, entry_size, lru_distinct, lru_has, lru_sum, outside_span, without_span,
    lemma_sum_bounds, lemma_sum_concat, lemma_sum_one, lemma_sum_split,
    lemma_without_span_props, lemma_without_span_sum_drop, LruEntry, LruQueue,
};
use crate::pages::{MAX_PAGE, PAGE_SIZE};
use crate::range::{rng_contains, rng_overlaps, rng_size, rng_touches, rng_wf, Range};

verus! {

/// Whether some range of `s` has exactly the bounds of queue entry `e` and
/// is not purged: what a queue member must refer to.
pub open spec fn entry_matches(s: Seq<Range>, e: LruEntry) -> bool {
    exists|i: int|
        0 <= i < s.len() && (#[trigger] s[i]).pgstart == e.pgstart && s[i].pgend == e.pgend
            && !s[i].purged
}

/// An area with the span `[hi, lo)` of its entries replaced by `merged`.
pub open spec fn splice_seq(s: Seq<Range>, hi: int, lo: int, merged: Range) -> Seq<Range> {
    s.take(hi) + seq![merged] + s.skip(lo)
}

/// The shared state behind the tracker lock: one area per object, and the
/// reclaim queue that mirrors every non-purged unpinned range.
pub struct Tracker {
    pub objects: Vec<Area>,
    pub lru: LruQueue,
}

impl Tracker {
    /// The unpinned ranges of object `o`.
    pub open spec fn area_seq(&self, o: int) -> Seq<Range> {
        self.objects@[o]@
    }

    /// Number of objects the tracker knows.
    pub open spec fn n_objects(&self) -> int {
        self.objects@.len() as int
    }

    /// The tracker invariant:
    /// - every area is well formed (disjoint, maximally merged, descending);
    /// - the queue is well formed and its total equals the sum of its
    ///   members' sizes;
    /// - every queue entry names an existing non-purged range with exactly
    ///   its bounds, and every non-purged range has its queue entry.
    pub open spec fn wf(&self) -> bool {
        &&& self.lru.wf()
        &&& forall|o: int|
            0 <= o < self.n_objects() ==> area_wf((#[trigger] self.objects@[o])@)
        &&& forall|k: int|
            0 <= k < self.lru.entries@.len() ==> {
                let e = #[trigger] self.lru.entries@[k];
                &&& (e.obj as int) < self.n_objects()
                &&& entry_matches(self.area_seq(e.obj as int), e)
            }
        &&& forall|o: usize, i: int|
            (o as int) < self.n_objects() && 0 <= i < self.area_seq(o as int).len()
                && !(#[trigger] self.area_seq(o as int)[i]).purged
                ==> lru_has(self.lru.entries@, o, self.area_seq(o as int)[i].pgstart)
    }

    /// A tracker with no objects and an empty queue.
    pub fn new() -> (r: Tracker)
        ensures
            r.wf(),
            r.n_objects() == 0,
            r.lru.entries@ == Seq::<LruEntry>::empty(),
            r.lru.count == 0,
    {
        let r = Tracker { objects: Vec::new(), lru: LruQueue::new() };
        proof {
            assert(r.objects@ =~= Seq::<Area>::empty());
        }
        r
    }

    /// Register a new memory object; its pages all start pinned. Returns
    /// the object's handle.
    pub fn open_object(&mut self) -> (obj: usize)
        requires
            old(self).wf(),
        ensures
            final(self).wf(),
            obj == old(self).n_objects(),
            final(self).n_objects() == old(self).n_objects() + 1,
            forall|o: int|
                0 <= o < old(self).n_objects()
                    ==> (#[trigger] final(self).objects@[o])@ == old(self).objects@[o]@,
            final(self).area_seq(obj as int) == Seq::<Range>::empty(),
            final(self).lru.entries@ == old(self).lru.entries@,
            final(self).lru.count == old(self).lru.count,
    {
        let obj = self.objects.len();
        self.objects.push(Area::new());
        proof {
            let t0 = *old(self);
            let t1 = *self;
            assert(forall|o: int|
                0 <= o < t0.n_objects() ==> #[trigger] t1.objects@[o] == t0.objects@[o]);
            assert forall|k: int| 0 <= k < t1.lru.entries@.len() implies {
                let e = #[trigger] t1.lru.entries@[k];
                &&& (e.obj as int) < t1.n_objects()
                &&& entry_matches(t1.area_seq(e.obj as int), e)
            } by {
                let e = t1.lru.entries@[k];
                assert(e == t0.lru.entries@[k]);
                assert(t1.area_seq(e.obj as int) == t0.area_seq(e.obj as int));
            }
            assert forall|o: usize, i: int|
                (o as int) < t1.n_objects() && 0 <= i < t1.area_seq(o as int).len()
                    && !(#[trigger] t1.area_seq(o as int)[i]).purged
                implies lru_has(t1.lru.entries@, o, t1.area_seq(o as int)[i].pgstart) by {
                if (o as int) < t0.n_objects() {
                    assert(t1.area_seq(o as int) == t0.area_seq(o as int));
                } else {
                    assert(t1.area_seq(o as int).len() == 0);
                }
            }
        }
        obj
    }

    /// The running total of reclaimable (unpinned, non-purged) pages. The
    /// pressure protocol's count half reads this without further work.
    pub fn lru_count(&self) -> (r: usize)
        ensures
            r == self.lru.count,
    {
        self.lru.count
    }

    /// Number of entries in the reclaim queue.
    pub fn lru_len(&self) -> (r: usize)
        ensures
            r == self.lru.entries@.len(),
    {
        self.lru.len()
    }

    /// Mark `[pgstart, pgend]` of object `obj` reclaimable.
    ///
    /// Afterwards a page of the object is unpinned exactly when it was
    /// unpinned before or lies in the request; the touched ranges are
    /// merged into one entry whose purge flag is the disjunction of the
    /// absorbed flags; unpinning an already fully unpinned range changes
    /// nothing. The merged range enters the queue at the front unless it is
    /// purged; the absorbed entries leave it.
    #[verifier::rlimit(100)]
    #[verifier::spinoff_prover]
    pub fn unpin(&mut self, obj: usize, pgstart: usize, pgend: usize) -> (merged: Ghost<
        Option<Range>,
    >)
        requires
            old(self).wf(),
            obj < old(self).n_objects(),
            pgstart <= pgend <= MAX_PAGE,
            old(self).lru.count + (pgend - pgstart + 1) <= usize::MAX,
        ensures
            final(self).wf(),
            final(self).n_objects() == old(self).n_objects(),
            forall|o: int|
                0 <= o < old(self).n_objects() && o != obj
                    ==> (#[trigger] final(self).objects@[o])@ == old(self).objects@[o]@,
            forall|p: int|
                #[trigger] covers(final(self).area_seq(obj as int), p)
                    <==> (covers(old(self).area_seq(obj as int), p) || pgstart <= p <= pgend),
            forall|p: int|
                #[trigger] purged_at(final(self).area_seq(obj as int), p) == (
                if same_entry(final(self).area_seq(obj as int), p, pgstart as int) {
                    any_purged_touching(
                        old(self).area_seq(obj as int),
                        pgstart as int,
                        pgend as int,
                    )
                } else {
                    purged_at(old(self).area_seq(obj as int), p)
                }),
            (exists|i: int|
                0 <= i < old(self).area_seq(obj as int).len()
                    && (#[trigger] old(self).area_seq(obj as int)[i]).pgstart <= pgstart
                    && pgend <= old(self).area_seq(obj as int)[i].pgend) ==> {
                &&& merged@ == None::<Range>
                &&& final(self).area_seq(obj as int) == old(self).area_seq(obj as int)
                &&& final(self).lru.entries@ == old(self).lru.entries@
                &&& final(self).lru.count == old(self).lru.count
            },
            !(exists|i: int|
                0 <= i < old(self).area_seq(obj as int).len()
                    && (#[trigger] old(self).area_seq(obj as int)[i]).pgstart <= pgstart
                    && pgend <= old(self).area_seq(obj as int)[i].pgend) ==> (merged@ matches
            Some(m) && {
                &&& rng_contains(m, pgstart as int)
                &&& (exists|j: int|
                    0 <= j < final(self).area_seq(obj as int).len()
                        && final(self).area_seq(obj as int)[j] == m)
                &&& final(self).lru.entries@ == (if m.purged {
                    without_span(
                        old(self).lru.entries@,
                        obj,
                        m.pgstart as int,
                        m.pgend as int,
                    )
                } else {
                    seq![LruEntry { obj, pgstart: m.pgstart, pgend: m.pgend }]
                        + without_span(
                        old(self).lru.entries@,
                        obj,
                        m.pgstart as int,
                        m.pgend as int,
                    )
                })
            }),
    {
        let ghost t0 = *old(self);
        let ghost a0 = self.objects@[obj as int]@;
        let ghost q0 = self.lru.entries@;

        // Find the span of entries the request touches: entries above it
        // start beyond pgend + 1, entries below end before pgstart - 1.
        let hi = self.objects[obj].seek_start_at_or_below(pgend + 1);
        let n = self.objects[obj].len();

        if hi < n {
            let first = self.objects[obj].get(hi);
            if first.is_superset_of_range(pgstart, pgend) {
                // The whole request is already unpinned: nothing changes,
                // not even the recency order.
                proof {
                    lemma_unpin_noop(a0, hi as int, pgstart as int, pgend as int);
                    assert(a0 == old(self).area_seq(obj as int));
                    assert((hi as int) < a0.len() && a0[hi as int].pgstart <= pgstart
                        && pgend <= a0[hi as int].pgend);
                    assert(exists|i: int|
                        0 <= i < old(self).area_seq(obj as int).len()
                            && (#[trigger] old(self).area_seq(obj as int)[i]).pgstart
                                <= pgstart
                            && pgend <= old(self).area_seq(obj as int)[i].pgend);
                }
                return Ghost(None);
            }
        }
        let lo = self.objects[obj].seek_end_below(hi, pgstart);

        // Absorb the touched entries into one merged range.
        let mut ms = pgstart;
        let mut me = pgend;
        let mut purged = false;
        let mut i = hi;
        while i < lo
            invariant
                obj < self.objects@.len(),
                a0 == self.objects@[obj as int]@,
                area_wf(a0),
                pgstart <= pgend <= MAX_PAGE,
                hi <= i <= lo <= a0.len(),
                ms <= pgstart,
                pgend <= me <= MAX_PAGE,
                ms == pgstart || (ms < pgstart && exists|k: int|
                    hi <= k < i && (#[trigger] a0[k]).pgstart == ms),
                me == pgend || (me > pgend && exists|k: int|
                    hi <= k < i && (#[trigger] a0[k]).pgend == me),
                forall|k: int|
                    hi <= k < i ==> ms <= (#[trigger] a0[k]).pgstart && a0[k].pgend <= me,
                purged == (exists|k: int| hi <= k < i && (#[trigger] a0[k]).purged),
            decreases lo - i,
        {
            let e = self.objects[obj].get(i);
            proof {
                assert(rng_wf(a0[i as int]));
            }
            if e.pgstart < ms {
                ms = e.pgstart;
            }
            if e.pgend > me {
                me = e.pgend;
            }
            let ghost old_purged = purged;
            purged = purged || e.purged;
            proof {
                if purged {
                    if old_purged {
                        let k = choose|k: int| hi <= k < i && (#[trigger] a0[k]).purged;
                        assert(hi <= k < i + 1 && a0[k].purged);
                    } else {
                        assert(a0[i as int].purged);
                    }
                }
                if ms < pgstart {
                    if exists|k: int| hi <= k < i && (#[trigger] a0[k]).pgstart == ms {
                        let k = choose|k: int| hi <= k < i && (#[trigger] a0[k]).pgstart == ms;
                        assert(hi <= k < i + 1 && a0[k].pgstart == ms);
                    } else {
                        assert(a0[i as int].pgstart == ms);
                    }
                }
                if me > pgend {
                    if exists|k: int| hi <= k < i && (#[trigger] a0[k]).pgend == me {
                        let k = choose|k: int| hi <= k < i && (#[trigger] a0[k]).pgend == me;
                        assert(hi <= k < i + 1 && a0[k].pgend == me);
                    } else {
                        assert(a0[i as int].pgend == me);
                    }
                }
            }
            i = i + 1;
        }

        let merged = Range { pgstart: ms, pgend: me, purged };
        proof {
            // No single old entry contains the whole request here.
            if exists|w: int|
                0 <= w < a0.len() && (#[trigger] a0[w]).pgstart <= pgstart
                    && pgend <= a0[w].pgend {
                let w = choose|w: int|
                    0 <= w < a0.len() && (#[trigger] a0[w]).pgstart <= pgstart
                        && pgend <= a0[w].pgend;
                lemma_disjoint_pairs(a0);
                assert(w >= hi);
                assert(hi < a0.len());
                if w > hi {
                    lemma_wf_separated(a0, hi as int, w);
                    assert(false);
                }
                assert(false);
            }
            lemma_unpin_merge(
                a0,
                hi as int,
                lo as int,
                pgstart as int,
                pgend as int,
                merged,
            );
        }

        // Mirror the merge in the queue: the absorbed identities leave,
        // the merged range enters at the front unless it is purged.
        let ghost qw = without_span(q0, obj, ms as int, me as int);
        self.lru.remove_span(obj, ms, me);
        proof {
            lemma_without_span_props(q0, obj, ms as int, me as int);
            if !purged {
                // Headroom for the merged size: what the absorbed entries
                // gave back covers all but the request's own pages.
                lemma_unpin_count_headroom(
                    t0,
                    a0,
                    q0,
                    obj,
                    hi as int,
                    lo as int,
                    pgstart as int,
                    pgend as int,
                    merged,
                );
            }
        }
        if !purged {
            self.lru.push_front(LruEntry { obj, pgstart: ms, pgend: me });
        }

        let mut pieces: Vec<Range> = Vec::new();
        pieces.push(merged);
        self.objects[obj].replace_span(hi, lo, &pieces);

        proof {
            let a1 = self.objects@[obj as int]@;
            assert(pieces@ =~= seq![merged]);
            assert(a1 == splice_seq(a0, hi as int, lo as int, merged));
            if !purged {
                assert(self.lru.entries@ =~= seq![
                    LruEntry { obj, pgstart: ms, pgend: me },
                ] + qw);
            }
            lemma_unpin_restore(t0, *self, obj, hi as int, lo as int, pgstart as int,
                pgend as int, merged);
            assert(rng_contains(merged, pgstart as int));
            assert(a1[hi as int] == merged);
            assert(self.lru.entries@ == (if merged.purged {
                without_span(q0, obj, merged.pgstart as int, merged.pgend as int)
            } else {
                seq![LruEntry { obj, pgstart: merged.pgstart, pgend: merged.pgend }]
                    + without_span(q0, obj, merged.pgstart as int, merged.pgend as int)
            }));
            assert(exists|j: int| 0 <= j < a1.len() && a1[j] == merged);
            assert(Some(merged) matches Some(m) && {
                &&& rng_contains(m, pgstart as int)
                &&& (exists|j: int|
                    0 <= j < self.objects@[obj as int]@.len()
                        && self.objects@[obj as int]@[j] == m)
                &&& self.lru.entries@ == (if m.purged {
                    without_span(q0, obj, m.pgstart as int, m.pgend as int)
                } else {
                    seq![LruEntry { obj, pgstart: m.pgstart, pgend: m.pgend }]
                        + without_span(q0, obj, m.pgstart as int, m.pgend as int)
                })
            });
        }
        Ghost(Some(merged))
    }

    /// Mark `[pgstart, pgend]` of object `obj` pinned (no longer
    /// reclaimable). Returns whether any overlapping unpinned range had
    /// already been purged, so the caller can report that data was
    /// discarded.
    ///
    /// Afterwards a page of the object is unpinned exactly when it was
    /// unpinned before and lies outside the request; surviving pages keep
    /// their purge flags. A range the request swallows leaves the queue; a
    /// range it shrinks keeps its queue position with its new bounds; the
    /// upper piece of a hole punch enters the queue at the front.
    #[verifier::rlimit(100)]
    pub fn pin(&mut self, obj: usize, pgstart: usize, pgend: usize) -> (was_purged: bool)
        requires
            old(self).wf(),
            obj < old(self).n_objects(),
            pgstart <= pgend <= MAX_PAGE,
        ensures
            final(self).wf(),
            final(self).n_objects() == old(self).n_objects(),
            forall|o: int|
                0 <= o < old(self).n_objects() && o != obj
                    ==> (#[trigger] final(self).objects@[o])@ == old(self).objects@[o]@,
            forall|p: int|
                #[trigger] covers(final(self).area_seq(obj as int), p)
                    <==> (covers(old(self).area_seq(obj as int), p)
                        && !(pgstart <= p <= pgend)),
            forall|p: int|
                #[trigger] covers(final(self).area_seq(obj as int), p)
                    ==> purged_at(final(self).area_seq(obj as int), p)
                        == purged_at(old(self).area_seq(obj as int), p),
            was_purged == (exists|p: int|
                pgstart <= p <= pgend && purged_at(old(self).area_seq(obj as int), p)),
    {
        let ghost t0 = *old(self);
        let ghost a0 = self.objects@[obj as int]@;
        let ghost q0 = self.lru.entries@;
        let ghost qs = pgstart as int;
        let ghost qe = pgend as int;

        // The overlap span: entries above it start beyond the request,
        // entries below it end before it.
        let a = self.objects[obj].seek_start_at_or_below(pgend);
        let b = self.objects[obj].seek_end_before(a, pgstart);
        proof {
            lemma_pin_cut(a0, a as int, b as int, qs, qe);
        }

        if a == b {
            // Nothing overlaps: the request was already pinned.
            proof {
                assert forall|p: int| pgstart <= p <= pgend
                    implies !covers(a0, p) by {
                    if covers(a0, p) {
                        assert(exists|pp: int| qs <= pp <= qe && covers(a0, pp));
                    }
                }
                if exists|p: int| qs <= p <= qe && purged_at(a0, p) {
                    assert(false);
                }
            }
            return false;
        }

        let first = self.objects[obj].get(a);
        let last = self.objects[obj].get(b - 1);

        // Does any overlapped range carry the purge flag?
        let mut was_purged = false;
        let mut i = a;
        while i < b
            invariant
                obj < self.objects@.len(),
                a0 == self.objects@[obj as int]@,
                a <= i <= b,
                b <= a0.len(),
                was_purged == (exists|k: int| a <= k < i && (#[trigger] a0[k]).purged),
            decreases b - i,
        {
            let e = self.objects[obj].get(i);
            let ghost old_wp = was_purged;
            was_purged = was_purged || e.purged;
            proof {
                if was_purged {
                    if old_wp {
                        let k = choose|k: int| a <= k < i && (#[trigger] a0[k]).purged;
                        assert(a <= k < i + 1 && a0[k].purged);
                    } else {
                        assert(a0[i as int].purged);
                    }
                }
            }
            i = i + 1;
        }

        // Rewrite the queue entries of the ranges that only shrink, so
        // their queue positions survive the span removal below.
        proof {
            lemma_queue_entry_bounds(t0, obj, a as int);
            lemma_queue_entry_bounds(t0, obj, b as int - 1);
            assert(rng_wf(a0[a as int]) && rng_wf(a0[b as int - 1]));
        }
        if first.pgend > pgend {
            proof {
                if first.pgstart >= pgstart {
                    lemma_pin_no_collision(a0, a as int, b as int, qs, qe);
                    lemma_no_queue_entry_at(t0, obj, (pgend + 1) as usize);
                }
            }
            if first.pgstart >= pgstart {
                // the first range keeps its part above the request
                self.lru.shrink_entry(obj, first.pgstart, pgend + 1, first.pgend);
            } else {
                // hole punch: the range keeps its part below the request
                self.lru.shrink_entry(obj, first.pgstart, first.pgstart, pgstart - 1);
            }
        }
        let ghost q_one = self.lru.entries@;
        if last.pgstart < pgstart && last.pgend <= pgend {
            proof {
                if a as int != b as int - 1 {
                    lemma_wf_separated(a0, a as int, b as int - 1);
                    assert(rng_wf(a0[b as int - 1]));
                }
                assert forall|k: int|
                    0 <= k < q_one.len() && (#[trigger] q_one[k]).obj == obj
                        && q_one[k].pgstart == last.pgstart
                    implies (pgstart - 1) - last.pgstart <= q_one[k].pgend - last.pgstart by {
                    assert(q_one[k] == q0[k] || (first.pgend > pgend
                        && q_one[k].pgstart != last.pgstart));
                    assert(q0[k].pgend == last.pgend);
                    assert(last.pgend >= pgstart);
                }
            }
            // the last range keeps its part below the request
            self.lru.shrink_entry(obj, last.pgstart, last.pgstart, pgstart - 1);
        }
        let ghost q_mid = self.lru.entries@;
        proof {
            assert(q_mid.len() == q0.len());
            assert forall|k: int| 0 <= k < q_mid.len()
                implies #[trigger] q_mid[k] == pin_mid_entry(
                    a0,
                    a as int,
                    b as int,
                    qs,
                    qe,
                    obj,
                    q0[k],
                ) by {
                let e = q0[k];
                assert(first == a0[a as int] && last == a0[b as int - 1]);
                if a as int != b as int - 1 {
                    lemma_wf_separated(a0, a as int, b as int - 1);
                    assert(rng_wf(a0[b as int - 1]));
                    assert(first.pgstart > last.pgstart);
                }
                if first.pgend > pgend && first.pgstart < pgstart {
                    assert(a as int == b as int - 1);
                }
                if first.pgend > pgend && first.pgstart >= pgstart {
                    assert(q_one[k] == (if e.obj == obj && e.pgstart == first.pgstart {
                        LruEntry { obj, pgstart: (pgend + 1) as usize, pgend: first.pgend }
                    } else {
                        e
                    }));
                } else if first.pgend > pgend {
                    assert(q_one[k] == (if e.obj == obj && e.pgstart == first.pgstart {
                        LruEntry { obj, pgstart: first.pgstart, pgend: (pgstart - 1) as usize }
                    } else {
                        e
                    }));
                } else {
                    assert(q_one[k] == e);
                }
                if last.pgstart < pgstart && last.pgend <= pgend {
                    assert(q_mid[k] == (if q_one[k].obj == obj
                        && q_one[k].pgstart == last.pgstart {
                        LruEntry { obj, pgstart: last.pgstart, pgend: (pgstart - 1) as usize }
                    } else {
                        q_one[k]
                    }));
                    if first.pgend > pgend {
                        assert(last.pgstart < pgstart && pgstart as int <= qe + 1);
                    }
                } else {
                    assert(q_mid[k] == q_one[k]);
                }
            }
        }
        self.lru.remove_span(obj, pgstart, pgend);
        let ghost qw = self.lru.entries@;
        if first.pgend > pgend && first.pgstart < pgstart && !first.purged {
            proof {
                lemma_pin_no_collision(a0, a as int, b as int, qs, qe);
                lemma_no_queue_entry_at(t0, obj, (pgend + 1) as usize);
                assert(entries_wf(q_mid) && lru_distinct(q_mid)) by {
                    lemma_pin_mid_shape(t0, obj, a as int, b as int, qs, qe, q_mid);
                }
                lemma_without_span_props(q_mid, obj, qs, qe);
                assert(!lru_has(q_mid, obj, (pgend + 1) as usize)) by {
                    if lru_has(q_mid, obj, (pgend + 1) as usize) {
                        let k = choose|k: int|
                            0 <= k < q_mid.len() && (#[trigger] q_mid[k]).obj == obj
                                && q_mid[k].pgstart == (pgend + 1) as usize;
                        assert(q_mid[k].pgstart == q0[k].pgstart);
                        assert(lru_has(q0, obj, (pgend + 1) as usize));
                        assert(false);
                    }
                }
                assert(!lru_has(qw, obj, (pgend + 1) as usize));
                // the freed middle pays for the queued upper piece
                assert(lru_has(q0, obj, first.pgstart));
            }
            self.lru.push_front(LruEntry { obj, pgstart: pgend + 1, pgend: first.pgend });
        }

        // Cut the request out of the area itself.
        let mut pieces: Vec<Range> = Vec::new();
        if first.pgend > pgend {
            pieces.push(Range { pgstart: pgend + 1, pgend: first.pgend, purged: first.purged });
        }
        if last.pgstart < pgstart {
            pieces.push(Range { pgstart: last.pgstart, pgend: pgstart - 1, purged: last.purged });
        }
        proof {
            assert(pieces@ =~= pin_pieces(a0, a as int, b as int, qs, qe));
        }
        self.objects[obj].replace_span(a, b, &pieces);

        proof {
            let t1 = *self;
            if !(first.pgend > pgend && first.pgstart < pgstart && !first.purged) {
                assert(t1.lru.entries@ =~= Seq::<LruEntry>::empty()
                    + without_span(q_mid, obj, qs, qe));
            } else {
                assert(t1.lru.entries@ =~= seq![
                    LruEntry { obj, pgstart: (pgend + 1) as usize, pgend: first.pgend },
                ] + without_span(q_mid, obj, qs, qe));
            }
            assert(pin_ctx(t0, t1, obj, a as int, b as int, qs, qe, q_mid));
            lemma_pin_restore(t0, t1, obj, a as int, b as int, qs, qe, q_mid);
            lemma_pin_splice_covers(a0, a as int, b as int, qs, qe);
            lemma_pin_splice_purged(a0, a as int, b as int, qs, qe);
            assert(t1.area_seq(obj as int) == a0.take(a as int)
                + pin_pieces(a0, a as int, b as int, qs, qe) + a0.skip(b as int));
        }
        was_purged
    }

    /// Read-only pin-status query: whether `[pgstart, pgend]` of object
    /// `obj` holds any unpinned page.
    pub fn range_has_unpinned_page(&self, obj: usize, pgstart: usize, pgend: usize) -> (r:
        bool)
        requires
            self.wf(),
            obj < self.n_objects(),
            pgstart <= pgend,
        ensures
            r == (exists|p: int| pgstart <= p <= pgend && covers(self.area_seq(obj as int), p)),
    {
        self.objects[obj].range_has_unpinned_page(pgstart, pgend)
    }
    /// Reclaim pass: pop least-recently-unpinned entries off the back of
    /// the queue, flag their ranges purged and deduct them from the
    /// running total, until `stop_after` pages are freed or the queue is
    /// empty — or after the first eviction when `stop_early` asks the
    /// pass to yield to waiting callers. Returns the pages freed and the
    /// byte ranges the storage layer should now discard, oldest first.
    #[verifier::rlimit(100)]
    pub fn free_lru(&mut self, stop_after: usize, stop_early: bool) -> (r: (usize, Vec<
        Discard,
    >))
        requires
            old(self).wf(),
        ensures
            final(self).wf(),
            final(self).n_objects() == old(self).n_objects(),
            r.1@.len() == evict_count(old(self).lru.entries@, stop_after as int, stop_early),
            final(self).lru.entries@ == old(self).lru.entries@.take(
                old(self).lru.entries@.len() - r.1@.len(),
            ),
            forall|j: int|
                0 <= j < r.1@.len() ==> #[trigger] r.1@[j] == discard_of(
                    old(self).lru.entries@[old(self).lru.entries@.len() - 1 - j],
                ),
            r.0 == lru_sum(old(self).lru.entries@.skip(
                old(self).lru.entries@.len() - r.1@.len(),
            )),
            r.0 <= old(self).lru.count,
            final(self).lru.count == old(self).lru.count - r.0,
            forall|o: int|
                0 <= o < old(self).n_objects()
                    ==> (#[trigger] final(self).area_seq(o)).len() == old(self).area_seq(o).len(),
            forall|o: usize, i: int|
                (o as int) < old(self).n_objects() && 0 <= i < old(self).area_seq(o as int).len()
                    ==> {
                    let r0 = #[trigger] old(self).area_seq(o as int)[i];
                    &&& final(self).area_seq(o as int)[i].pgstart == r0.pgstart
                    &&& final(self).area_seq(o as int)[i].pgend == r0.pgend
                    &&& final(self).area_seq(o as int)[i].purged == (r0.purged || lru_has(
                        old(self).lru.entries@.skip(
                            old(self).lru.entries@.len() - r.1@.len(),
                        ),
                        o,
                        r0.pgstart,
                    ))
                },
            forall|o: usize, p: int|
                (o as int) < old(self).n_objects()
                    ==> #[trigger] covers(final(self).area_seq(o as int), p) == covers(
                    old(self).area_seq(o as int),
                    p,
                ),
    {
        let ghost t0 = *old(self);
        let ghost q_init = self.lru.entries@;
        let ghost n0 = q_init.len() as int;
        let ghost b0 = stop_after as int;
        let mut freed: usize = 0;
        let mut discards: Vec<Discard> = Vec::new();
        proof {
            assert(q_init.take(n0) =~= q_init);
            assert(q_init.skip(n0) =~= Seq::<LruEntry>::empty());
            assert(discards@ =~= Seq::<Discard>::empty());
        }
        loop
            invariant_except_break
                evict_count(q_init, b0, stop_early) == discards@.len() + evict_count(
                    self.lru.entries@,
                    b0 - freed,
                    stop_early,
                ),
            invariant
                self.wf(),
                t0.wf(),
                self.n_objects() == t0.n_objects(),
                q_init == t0.lru.entries@,
                n0 == q_init.len(),
                discards@.len() <= n0,
                self.lru.entries@ == q_init.take(n0 - discards@.len()),
                freed == lru_sum(q_init.skip(n0 - discards@.len())),
                freed <= t0.lru.count,
                self.lru.count == t0.lru.count - freed,
                b0 == stop_after,
                forall|j: int|
                    0 <= j < discards@.len() ==> #[trigger] discards@[j] == discard_of(
                        q_init[n0 - 1 - j],
                    ),
                forall|o: int|
                    0 <= o < t0.n_objects()
                        ==> (#[trigger] self.area_seq(o)).len() == t0.area_seq(o).len(),
                forall|o: usize, i: int|
                    (o as int) < t0.n_objects() && 0 <= i < t0.area_seq(o as int).len() ==> {
                        let r0 = #[trigger] t0.area_seq(o as int)[i];
                        &&& self.area_seq(o as int)[i].pgstart == r0.pgstart
                        &&& self.area_seq(o as int)[i].pgend == r0.pgend
                        &&& self.area_seq(o as int)[i].purged == (r0.purged || lru_has(
                            q_init.skip(n0 - discards@.len()),
                            o,
                            r0.pgstart,
                        ))
                    },
            ensures
                self.wf(),
                self.n_objects() == t0.n_objects(),
                discards@.len() == evict_count(q_init, b0, stop_early),
                self.lru.entries@ == q_init.take(n0 - discards@.len()),
                freed == lru_sum(q_init.skip(n0 - discards@.len())),
                freed <= t0.lru.count,
                self.lru.count == t0.lru.count - freed,
                forall|j: int|
                    0 <= j < discards@.len() ==> #[trigger] discards@[j] == discard_of(
                        q_init[n0 - 1 - j],
                    ),
                forall|o: int|
                    0 <= o < t0.n_objects()
                        ==> (#[trigger] self.area_seq(o)).len() == t0.area_seq(o).len(),
                forall|o: usize, i: int|
                    (o as int) < t0.n_objects() && 0 <= i < t0.area_seq(o as int).len() ==> {
                        let r0 = #[trigger] t0.area_seq(o as int)[i];
                        &&& self.area_seq(o as int)[i].pgstart == r0.pgstart
                        &&& self.area_seq(o as int)[i].pgend == r0.pgend
                        &&& self.area_seq(o as int)[i].purged == (r0.purged || lru_has(
                            q_init.skip(n0 - discards@.len()),
                            o,
                            r0.pgstart,
                        ))
                    },
            decreases self.lru.entries@.len(),
        {
            let ghost done = discards@.len() as int;
            let ghost cur = self.lru.entries@;
            let ghost t_pre = *self;
            if freed >= stop_after {
                // the budget is spent: evict nothing further
                proof {
                    assert(evict_count(cur, b0 - freed, stop_early) == 0);
                }
                break ;
            }
            let e_opt = self.lru.pop_back();
            if e_opt.is_none() {
                proof {
                    assert(cur.len() == 0);
                    assert(self.lru.entries@ == cur);
                    assert(self.lru.count == t_pre.lru.count);
                    assert(self.objects == t_pre.objects);
                    assert(evict_count(cur, b0 - freed, stop_early) == 0);
                    assert(t_pre.wf());
                    assert(self.lru.wf());
                    assert(self.n_objects() == t_pre.n_objects());
                    assert(forall|o: int|
                        0 <= o < self.n_objects()
                            ==> (#[trigger] self.objects@[o])@ == t_pre.objects@[o]@);
                    assert forall|o: int| 0 <= o < self.n_objects()
                        implies area_wf((#[trigger] self.objects@[o])@) by {
                        assert(self.objects@[o]@ == t_pre.objects@[o]@);
                    }
                    assert forall|k: int| 0 <= k < self.lru.entries@.len() implies {
                        let e = #[trigger] self.lru.entries@[k];
                        &&& (e.obj as int) < self.n_objects()
                        &&& entry_matches(self.area_seq(e.obj as int), e)
                    } by {
                        assert(self.lru.entries@[k] == t_pre.lru.entries@[k]);
                        assert(self.area_seq(self.lru.entries@[k].obj as int)
                            == t_pre.area_seq(t_pre.lru.entries@[k].obj as int));
                    }
                    assert forall|o: usize, i: int|
                        (o as int) < self.n_objects() && 0 <= i < self.area_seq(o as int).len()
                            && !(#[trigger] self.area_seq(o as int)[i]).purged
                        implies lru_has(self.lru.entries@, o, self.area_seq(o as int)[i].pgstart)
                    by {
                        assert(self.area_seq(o as int) == t_pre.area_seq(o as int));
                    }
                    assert(self.wf());
                    assert forall|o: int| 0 <= o < t0.n_objects()
                        implies (#[trigger] self.area_seq(o)).len() == t0.area_seq(o).len()
                    by {
                        assert(self.area_seq(o) == t_pre.area_seq(o));
                    }
                    assert forall|o: usize, i: int|
                        (o as int) < t0.n_objects() && 0 <= i < t0.area_seq(o as int).len()
                        implies {
                            let r0 = #[trigger] t0.area_seq(o as int)[i];
                            &&& self.area_seq(o as int)[i].pgstart == r0.pgstart
                            &&& self.area_seq(o as int)[i].pgend == r0.pgend
                            &&& self.area_seq(o as int)[i].purged == (r0.purged || lru_has(
                                q_init.skip(n0 - discards@.len()),
                                o,
                                r0.pgstart,
                            ))
                        } by {
                        assert(self.area_seq(o as int) == t_pre.area_seq(o as int));
                    }
                }
                break ;
            }
            let e = e_opt.unwrap();
            proof {
                assert(cur.len() > 0 && e == cur.last());
                assert(t_pre.lru.entries@[cur.len() - 1] == e);
                assert((e.obj as int) < t_pre.n_objects() && entry_matches(
                    t_pre.area_seq(e.obj as int),
                    e,
                ));
                assert(e.pgstart <= e.pgend <= MAX_PAGE);
                assert(cur[cur.len() - 1] == q_init[n0 - done - 1]);
                lemma_evict_sums(q_init, done, t0.lru.count as int);
                assert(q_init[n0 - done - 1] == e);
            }
            let size = e.pgend - e.pgstart + 1;
            freed = freed + size;
            discards.push(
                Discard {
                    obj: e.obj,
                    byte_start: e.pgstart * PAGE_SIZE,
                    byte_len: size * PAGE_SIZE,
                },
            );
            self.objects[e.obj].mark_purged(e.pgstart);
            proof {
                let t1 = *self;
                assert(t1.lru.entries@ == t_pre.lru.entries@.drop_last());
                lemma_evict_step(t0, t_pre, t1, q_init, done, e);
            }
            if freed >= stop_after {
                proof {
                    assert(b0 - lru_sum(q_init.skip(n0 - done)) > 0);
                    assert(entry_size(e) >= b0 - lru_sum(q_init.skip(n0 - done)));
                    assert(evict_count(cur, b0 - lru_sum(q_init.skip(n0 - done)), stop_early)
                        == 1);
                }
                break ;
            }
            if stop_early {
                proof {
                    assert(b0 - lru_sum(q_init.skip(n0 - done)) > 0);
                    assert(evict_count(cur, b0 - lru_sum(q_init.skip(n0 - done)), stop_early)
                        == 1);
                }
                break ;
            }
            proof {
                assert(b0 - lru_sum(q_init.skip(n0 - done)) > 0);
                assert(evict_count(cur, b0 - lru_sum(q_init.skip(n0 - done)), stop_early)
                    == 1 + evict_count(
                    cur.drop_last(),
                    b0 - lru_sum(q_init.skip(n0 - done)) - entry_size(e),
                    stop_early,
                ));
            }
        }
        proof {
            assert forall|o: usize, p: int| (o as int) < t0.n_objects()
                implies #[trigger] covers(self.area_seq(o as int), p) == covers(
                t0.area_seq(o as int),
                p,
            ) by {
                assert(self.area_seq(o as int).len() == t0.area_seq(o as int).len());
                assert forall|i: int| 0 <= i < t0.area_seq(o as int).len()
                    implies (#[trigger] t0.area_seq(o as int)[i]).pgstart
                        == self.area_seq(o as int)[i].pgstart
                        && t0.area_seq(o as int)[i].pgend == self.area_seq(o as int)[i].pgend
                by {}
                lemma_extents_covers(t0.area_seq(o as int), self.area_seq(o as int));
            }
        }
        (freed, discards)
    }

    /// Forget an object: its area empties and all its queue entries leave
    /// with their sizes. Used when the memory object itself goes away.
    pub fn release_object(&mut self, obj: usize)
        requires
            old(self).wf(),
            obj < old(self).n_objects(),
        ensures
            final(self).wf(),
            final(self).n_objects() == old(self).n_objects(),
            forall|o: int|
                0 <= o < old(self).n_objects() && o != obj
                    ==> (#[trigger] final(self).objects@[o])@ == old(self).objects@[o]@,
            final(self).area_seq(obj as int) == Seq::<Range>::empty(),
            final(self).lru.entries@ == without_span(old(self).lru.entries@, obj, 0, MAX_PAGE as int),
            final(self).lru.count <= old(self).lru.count,
    {
        let ghost t0 = *old(self);
        let ghost q0 = self.lru.entries@;
        self.lru.remove_span(obj, 0, MAX_PAGE);
        self.objects[obj].clear();
        proof {
            let t1 = *self;
            let w = without_span(q0, obj, 0, MAX_PAGE as int);
            lemma_without_span_props(q0, obj, 0, MAX_PAGE as int);
            assert forall|k: int| 0 <= k < t1.lru.entries@.len() implies {
                let e = #[trigger] t1.lru.entries@[k];
                &&& (e.obj as int) < t1.n_objects()
                &&& entry_matches(t1.area_seq(e.obj as int), e)
            } by {
                let e = t1.lru.entries@[k];
                assert(e == w[k]);
                let k0 = choose|k0: int| 0 <= k0 < q0.len() && q0[k0] == w[k];
                assert(lru_has(w, e.obj, e.pgstart)) by {
                    assert(0 <= k < w.len() && w[k].obj == e.obj && w[k].pgstart == e.pgstart);
                }
                assert(lru_has(q0, e.obj, e.pgstart)
                    && !(e.obj == obj && 0 <= e.pgstart <= MAX_PAGE));
                assert(e.obj != obj);
                assert(t1.area_seq(e.obj as int) == t0.area_seq(e.obj as int));
            }
            assert forall|o: usize, i: int|
                (o as int) < t1.n_objects() && 0 <= i < t1.area_seq(o as int).len()
                    && !(#[trigger] t1.area_seq(o as int)[i]).purged
                implies lru_has(t1.lru.entries@, o, t1.area_seq(o as int)[i].pgstart) by {
                assert(o != obj);
                assert(t1.area_seq(o as int) == t0.area_seq(o as int));
                let r = t1.area_seq(o as int)[i];
                assert(lru_has(q0, o, r.pgstart));
                assert(lru_has(w, o, r.pgstart));
            }
            assert forall|o: int| 0 <= o < t1.n_objects()
                implies area_wf((#[trigger] t1.objects@[o])@) by {
                if o != obj {
                    assert(t1.objects@[o]@ == t0.objects@[o]@);
                }
            }
        }
    }
}

/// The pieces left of the overlap span `[a, b)` after `[qs, qe]` is
/// pinned: the part of the first entry above the request, then the part of
/// the last entry below it, each carrying its source's purge flag.
pub open spec fn pin_pieces(s: Seq<Range>, a: int, b: int, qs: int, qe: int) -> Seq<Range> {
    if a >= b {
        Seq::empty()
    } else {
        let up: Seq<Range> = if s[a].pgend > qe {
            seq![Range { pgstart: (qe + 1) as usize, pgend: s[a].pgend, purged: s[a].purged }]
        } else {
            Seq::empty()
        };
        let low: Seq<Range> = if s[b - 1].pgstart < qs {
            seq![
                Range {
                    pgstart: s[b - 1].pgstart,
                    pgend: (qs - 1) as usize,
                    purged: s[b - 1].purged,
                },
            ]
        } else {
            Seq::empty()
        };
        up + low
    }
}

/// In a well-formed area the entries overlapping `[qs, qe]` form one
/// contiguous span; only its first member can reach above the request and
/// only its last below it.
#[verifier::rlimit(100)]
proof fn lemma_pin_cut(a0: Seq<Range>, a: int, b: int, qs: int, qe: int)
    requires
        area_wf(a0),
        0 <= a <= b <= a0.len(),
        0 <= qs <= qe <= MAX_PAGE,
        forall|i: int| 0 <= i < a ==> (#[trigger] a0[i]).pgstart > qe,
        a < b ==> a0[a].pgstart <= qe,
        forall|i: int| a <= i < b ==> (#[trigger] a0[i]).pgend >= qs,
        b < a0.len() ==> a0[b].pgend < qs,
    ensures
        forall|i: int|
            0 <= i < a0.len()
                ==> (rng_overlaps(#[trigger] a0[i], qs, qe) <==> a <= i < b),
        forall|i: int| a < i < b ==> (#[trigger] a0[i]).pgend <= qe,
        forall|i: int| a <= i < b - 1 ==> (#[trigger] a0[i]).pgstart >= qs,
        forall|i: int|
            0 <= i < a0.len()
                ==> ((qs <= (#[trigger] a0[i]).pgstart <= qe)
                    <==> (a <= i < b && a0[i].pgstart >= qs)),
        (exists|k: int| a <= k < b && (#[trigger] a0[k]).purged)
            == (exists|p: int| qs <= p <= qe && purged_at(a0, p)),
        (a < b) == (exists|p: int| qs <= p <= qe && covers(a0, p)),
{
    lemma_disjoint_pairs(a0);
    assert forall|i: int| a < i < b implies (#[trigger] a0[i]).pgend <= qe by {
        lemma_wf_separated(a0, a, i);
    }
    assert forall|i: int| a <= i < b - 1 implies (#[trigger] a0[i]).pgstart >= qs by {
        lemma_wf_separated(a0, i, b - 1);
        assert(a0[b - 1].pgend >= qs);
        assert(rng_wf(a0[b - 1]));
    }
    assert forall|i: int| b <= i < a0.len() implies (#[trigger] a0[i]).pgend < qs by {
        if i > b {
            lemma_wf_separated(a0, b, i);
            assert(rng_wf(a0[b]));
        }
    }
    assert forall|i: int| 0 <= i < a0.len()
        implies (rng_overlaps(#[trigger] a0[i], qs, qe) <==> a <= i < b) by {
        assert(rng_wf(a0[i]));
    }
    lemma_purged_overlap_is_purged_page(a0, qs, qe);
    if exists|k: int| a <= k < b && (#[trigger] a0[k]).purged {
        let k = choose|k: int| a <= k < b && (#[trigger] a0[k]).purged;
        assert(rng_overlaps(a0[k], qs, qe));
    }
    if exists|p: int| qs <= p <= qe && purged_at(a0, p) {
        let k = choose|k: int|
            0 <= k < a0.len() && rng_overlaps(#[trigger] a0[k], qs, qe) && a0[k].purged;
    }
    lemma_overlap_is_covered_page(a0, qs, qe);
    if a < b {
        assert(rng_overlaps(a0[a], qs, qe));
    }
    if exists|p: int| qs <= p <= qe && covers(a0, p) {
        let k = choose|k: int|
            0 <= k < a0.len() && rng_overlaps(#[trigger] a0[k], qs, qe);
    }
}

/// Well-formedness half of the pin cut.
#[verifier::rlimit(100)]
proof fn lemma_pin_splice_wf(a0: Seq<Range>, a: int, b: int, qs: int, qe: int)
    requires
        area_wf(a0),
        0 <= a <= b <= a0.len(),
        0 <= qs <= qe <= MAX_PAGE,
        forall|i: int| 0 <= i < a ==> (#[trigger] a0[i]).pgstart > qe,
        a < b ==> a0[a].pgstart <= qe,
        forall|i: int| a <= i < b ==> (#[trigger] a0[i]).pgend >= qs,
        b < a0.len() ==> a0[b].pgend < qs,
    ensures
        area_wf(a0.take(a) + pin_pieces(a0, a, b, qs, qe) + a0.skip(b)),
{
    lemma_pin_cut(a0, a, b, qs, qe);
    lemma_disjoint_pairs(a0);
    let ps = pin_pieces(a0, a, b, qs, qe);
    let np = ps.len() as int;
    let a1 = a0.take(a) + ps + a0.skip(b);
    let has_up = a < b && a0[a].pgend > qe;
    let has_low = a < b && a0[b - 1].pgstart < qs;
    assert(forall|i: int| 0 <= i < a ==> #[trigger] a1[i] == a0[i]);
    assert(forall|j: int|
        a + np <= j < a1.len() ==> #[trigger] a1[j] == a0[j - a - np + b]);
    if has_up {
        assert(a1[a] == ps[0]);
    }
    if has_low {
        assert(a1[a + np - 1] == ps[np - 1]);
    }
    if has_up && has_low {
        assert(np == 2);
    }

    // Well-formedness of the cut area.
    assert forall|j: int| 0 <= j < a1.len() implies rng_wf(#[trigger] a1[j]) by {
        if j < a {
            assert(rng_wf(a0[j]));
        } else if j >= a + np {
            assert(rng_wf(a0[j - a - np + b]));
        } else {
            assert(rng_wf(a0[a]) && rng_wf(a0[b - 1]));
        }
    }
    assert forall|j: int| 0 < j < a1.len()
        implies (#[trigger] a1[j]).pgend + 2 <= (#[trigger] a1[j - 1]).pgstart by {
        assert(rng_wf(a0[a - (if a > 0 { 1int } else { 0int })]));
        if j < a {
        } else if j > a + np {
            assert(a1[j] == a0[j - a - np + b] && a1[j - 1] == a0[j - 1 - a - np + b]);
        } else if j == a + np {
            // boundary between the pieces (or the part above) and below
            if b < a0.len() {
                assert(a1[j] == a0[b]);
                if np == 0 {
                    if a > 0 {
                        lemma_wf_separated(a0, a - 1, b);
                    }
                } else {
                    if has_low {
                        lemma_wf_separated(a0, b - 1, b);
                    } else {
                        assert(a1[j - 1] == ps[0]);
                        assert(a0[b].pgend < qs);
                    }
                }
            }
        } else if j == a {
            // boundary between the part above and the first piece
            if a > 0 {
                if has_up {
                    lemma_wf_separated(a0, a - 1, a);
                } else {
                    assert(a1[j] == ps[0]);
                    lemma_wf_separated(a0, a - 1, b - 1);
                }
            }
        } else {
            // between the two pieces
            assert(j == a + 1 && np == 2);
        }
    }
    assert(area_wf(a1));
}

/// Coverage half of the pin cut: exactly the old pages outside the
/// request stay unpinned.
#[verifier::rlimit(100)]
proof fn lemma_pin_splice_covers(a0: Seq<Range>, a: int, b: int, qs: int, qe: int)
    requires
        area_wf(a0),
        0 <= a <= b <= a0.len(),
        0 <= qs <= qe <= MAX_PAGE,
        forall|i: int| 0 <= i < a ==> (#[trigger] a0[i]).pgstart > qe,
        a < b ==> a0[a].pgstart <= qe,
        forall|i: int| a <= i < b ==> (#[trigger] a0[i]).pgend >= qs,
        b < a0.len() ==> a0[b].pgend < qs,
    ensures
        forall|p: int|
            #[trigger] covers(a0.take(a) + pin_pieces(a0, a, b, qs, qe) + a0.skip(b), p)
                <==> (covers(a0, p) && !(qs <= p <= qe)),
{
    lemma_pin_cut(a0, a, b, qs, qe);
    lemma_disjoint_pairs(a0);
    let ps = pin_pieces(a0, a, b, qs, qe);
    let np = ps.len() as int;
    let a1 = a0.take(a) + ps + a0.skip(b);
    let has_up = a < b && a0[a].pgend > qe;
    let has_low = a < b && a0[b - 1].pgstart < qs;
    assert(forall|i: int| 0 <= i < a ==> #[trigger] a1[i] == a0[i]);
    assert(forall|j: int|
        a + np <= j < a1.len() ==> #[trigger] a1[j] == a0[j - a - np + b]);
    if has_up {
        assert(a1[a] == ps[0]);
    }
    if has_low {
        assert(a1[a + np - 1] == ps[np - 1]);
    }

    // Coverage: exactly the old pages outside the request.
    assert forall|p: int| #[trigger] covers(a1, p)
        implies (covers(a0, p) && !(qs <= p <= qe)) by {
        let j = choose|j: int| 0 <= j < a1.len() && rng_contains(#[trigger] a1[j], p);
        if j < a {
            assert(rng_contains(a0[j], p));
        } else if j >= a + np {
            assert(rng_contains(a0[j - a - np + b], p));
            assert(rng_wf(a0[j - a - np + b]));
        } else {
            if has_up && j == a {
                assert(rng_contains(a0[a], p));
            } else {
                assert(a1[j] == ps[np - 1] && has_low);
                assert(rng_contains(a0[b - 1], p));
            }
        }
    }
    assert forall|p: int| covers(a0, p) && !(qs <= p <= qe)
        implies #[trigger] covers(a1, p) by {
        let j = choose|j: int| 0 <= j < a0.len() && rng_contains(#[trigger] a0[j], p);
        if j < a {
            assert(rng_contains(a1[j], p));
        } else if j >= b {
            assert(rng_contains(a1[j - b + a + np], p));
        } else if p > qe {
            assert(j == a) by {
                if j > a {
                    assert(a0[j].pgend <= qe);
                }
            }
            assert(has_up);
            assert(rng_contains(a1[a], p));
        } else {
            assert(p < qs);
            assert(j == b - 1) by {
                if j < b - 1 {
                    assert(a0[j].pgstart >= qs);
                }
            }
            assert(has_low);
            assert(rng_contains(a1[a + np - 1], p));
        }
    }
}

/// Purge half of the pin cut: surviving pages keep their flags.
#[verifier::rlimit(100)]
proof fn lemma_pin_splice_purged(a0: Seq<Range>, a: int, b: int, qs: int, qe: int)
    requires
        area_wf(a0),
        0 <= a <= b <= a0.len(),
        0 <= qs <= qe <= MAX_PAGE,
        forall|i: int| 0 <= i < a ==> (#[trigger] a0[i]).pgstart > qe,
        a < b ==> a0[a].pgstart <= qe,
        forall|i: int| a <= i < b ==> (#[trigger] a0[i]).pgend >= qs,
        b < a0.len() ==> a0[b].pgend < qs,
    ensures
        forall|p: int|
            covers(a0.take(a) + pin_pieces(a0, a, b, qs, qe) + a0.skip(b), p)
                ==> #[trigger] purged_at(
                a0.take(a) + pin_pieces(a0, a, b, qs, qe) + a0.skip(b),
                p,
            ) == purged_at(a0, p),
{
    lemma_pin_cut(a0, a, b, qs, qe);
    lemma_disjoint_pairs(a0);
    lemma_pin_splice_wf(a0, a, b, qs, qe);
    lemma_pin_splice_covers(a0, a, b, qs, qe);
    let ps = pin_pieces(a0, a, b, qs, qe);
    let np = ps.len() as int;
    let a1 = a0.take(a) + ps + a0.skip(b);
    let has_up = a < b && a0[a].pgend > qe;
    let has_low = a < b && a0[b - 1].pgstart < qs;
    assert(forall|i: int| 0 <= i < a ==> #[trigger] a1[i] == a0[i]);
    assert(forall|j: int|
        a + np <= j < a1.len() ==> #[trigger] a1[j] == a0[j - a - np + b]);
    if has_up {
        assert(a1[a] == ps[0]);
    }
    if has_low {
        assert(a1[a + np - 1] == ps[np - 1]);
    }

    // Purge flags of surviving pages are untouched.
    assert forall|p: int| covers(a1, p)
        implies #[trigger] purged_at(a1, p) == purged_at(a0, p) by {
        assert(area_wf(a1));
        if purged_at(a1, p) {
            let j = choose|j: int|
                0 <= j < a1.len() && rng_contains(#[trigger] a1[j], p) && a1[j].purged;
            if j < a {
                assert(rng_contains(a0[j], p) && a0[j].purged);
            } else if j >= a + np {
                assert(rng_contains(a0[j - a - np + b], p) && a0[j - a - np + b].purged);
            } else if has_up && j == a {
                assert(rng_contains(a0[a], p) && a0[a].purged);
            } else {
                assert(a1[j] == ps[np - 1] && has_low);
                assert(rng_contains(a0[b - 1], p) && a0[b - 1].purged);
            }
        }
        if purged_at(a0, p) {
            let j = choose|j: int|
                0 <= j < a0.len() && rng_contains(#[trigger] a0[j], p) && a0[j].purged;
            let jc = choose|jc: int|
                0 <= jc < a0.len() && rng_contains(#[trigger] a0[jc], p);
            assert(covers(a0, p) && !(qs <= p <= qe));
            if j < a {
                assert(rng_contains(a1[j], p) && a1[j].purged);
            } else if j >= b {
                assert(rng_contains(a1[j - b + a + np], p) && a1[j - b + a + np].purged);
            } else if p > qe {
                assert(j == a) by {
                    if j > a {
                        assert(a0[j].pgend <= qe);
                    }
                }
                assert(rng_contains(a1[a], p) && a1[a].purged);
            } else {
                assert(p < qs);
                assert(j == b - 1) by {
                    if j < b - 1 {
                        assert(a0[j].pgstart >= qs);
                    }
                }
                assert(rng_contains(a1[a + np - 1], p) && a1[a + np - 1].purged);
            }
        }
    }
}

/// How a pin of `[qs, qe]` rewrites one queue entry: the overlap span's
/// first member shrinks to the part above the request (or, when the
/// request punches a hole, keeps the part below), its last member shrinks
/// to the part below; everything else is untouched.
pub open spec fn pin_mid_entry(
    s: Seq<Range>,
    a: int,
    b: int,
    qs: int,
    qe: int,
    obj: usize,
    e: LruEntry,
) -> LruEntry {
    if a < b && e.obj == obj {
        if s[a].pgend > qe && s[a].pgstart >= qs && e.pgstart == s[a].pgstart {
            LruEntry { obj, pgstart: (qe + 1) as usize, pgend: s[a].pgend }
        } else if s[a].pgend > qe && s[a].pgstart < qs && e.pgstart == s[a].pgstart {
            LruEntry { obj, pgstart: s[a].pgstart, pgend: (qs - 1) as usize }
        } else if s[b - 1].pgstart < qs && s[b - 1].pgend <= qe
            && e.pgstart == s[b - 1].pgstart {
            LruEntry { obj, pgstart: s[b - 1].pgstart, pgend: (qs - 1) as usize }
        } else {
            e
        }
    } else {
        e
    }
}

/// Every queue entry naming the start of a given area range carries that
/// range's end.
proof fn lemma_queue_entry_bounds(t: Tracker, obj: usize, j: int)
    requires
        t.wf(),
        (obj as int) < t.n_objects(),
        0 <= j < t.area_seq(obj as int).len(),
    ensures
        forall|k: int|
            0 <= k < t.lru.entries@.len() && (#[trigger] t.lru.entries@[k]).obj == obj
                && t.lru.entries@[k].pgstart == t.area_seq(obj as int)[j].pgstart
                ==> t.lru.entries@[k].pgend == t.area_seq(obj as int)[j].pgend
                    && !t.area_seq(obj as int)[j].purged,
{
    let s = t.area_seq(obj as int);
    let q = t.lru.entries@;
    assert forall|k: int|
        0 <= k < q.len() && (#[trigger] q[k]).obj == obj && q[k].pgstart == s[j].pgstart
        implies q[k].pgend == s[j].pgend && !s[j].purged by {
        let i = choose|i: int|
            0 <= i < s.len() && (#[trigger] s[i]).pgstart == q[k].pgstart
                && s[i].pgend == q[k].pgend && !s[i].purged;
        if i < j {
            lemma_wf_separated(s, i, j);
            assert(rng_wf(s[i]) && rng_wf(s[j]));
            assert(false);
        } else if i > j {
            lemma_wf_separated(s, j, i);
            assert(rng_wf(s[i]) && rng_wf(s[j]));
            assert(false);
        }
    }
}

/// No queue entry of an object names a start that none of its ranges has.
proof fn lemma_no_queue_entry_at(t: Tracker, obj: usize, start: usize)
    requires
        t.wf(),
        (obj as int) < t.n_objects(),
        forall|j: int|
            0 <= j < t.area_seq(obj as int).len()
                ==> (#[trigger] t.area_seq(obj as int)[j]).pgstart != start,
    ensures
        !lru_has(t.lru.entries@, obj, start),
{
    let q = t.lru.entries@;
    if lru_has(q, obj, start) {
        let k = choose|k: int|
            0 <= k < q.len() && (#[trigger] q[k]).obj == obj && q[k].pgstart == start;
        let s = t.area_seq(obj as int);
        let i = choose|i: int|
            0 <= i < s.len() && (#[trigger] s[i]).pgstart == q[k].pgstart
                && s[i].pgend == q[k].pgend && !s[i].purged;
        assert(false);
    }
}

/// One discard request the reclaim engine hands back: the storage layer
/// should punch a hole over exactly this byte range of this object.
#[derive(Clone, Copy, Debug, PartialEq, Eq, Structural)]
pub struct Discard {
    pub obj: usize,
    pub byte_start: usize,
    pub byte_len: usize,
}

/// The discard request for an evicted queue entry.
pub open spec fn discard_of(e: LruEntry) -> Discard {
    Discard {
        obj: e.obj,
        byte_start: (e.pgstart * PAGE_SIZE) as usize,
        byte_len: ((e.pgend - e.pgstart + 1) * PAGE_SIZE) as usize,
    }
}

/// How many entries a reclaim pass pops off the back of the queue: while
/// under budget it keeps evicting, and it stops once the pages freed
/// reach the budget, or after the first eviction when asked to stop
/// early.
pub open spec fn evict_count(q: Seq<LruEntry>, budget: int, stop_early: bool) -> nat
    decreases q.len(),
{
    if q.len() == 0 || budget <= 0 {
        0
    } else if entry_size(q.last()) >= budget || stop_early {
        1
    } else {
        1 + evict_count(q.drop_last(), budget - entry_size(q.last()), stop_early)
    }
}

/// A pass never evicts more entries than the queue holds.
pub proof fn lemma_evict_count_le(q: Seq<LruEntry>, budget: int, stop_early: bool)
    ensures
        evict_count(q, budget, stop_early) <= q.len(),
    decreases q.len(),
{
    if q.len() > 0 && budget > 0 && !(entry_size(q.last()) >= budget || stop_early) {
        lemma_evict_count_le(q.drop_last(), budget - entry_size(q.last()), stop_early);
    }
}

/// A budget at least the whole queue's total drains the queue.
pub proof fn lemma_evict_count_all(q: Seq<LruEntry>, budget: int)
    requires
        entries_wf(q),
        budget >= lru_sum(q),
    ensures
        evict_count(q, budget, false) == q.len(),
    decreases q.len(),
{
    if q.len() > 0 {
        lemma_sum_split(q, q.len() - 1);
        assert(q.skip(q.len() - 1) =~= seq![q.last()]);
        lemma_sum_one(q.last());
        assert(q.take(q.len() - 1) =~= q.drop_last());
        assert(entries_wf(q.drop_last())) by {
            assert(forall|k: int|
                0 <= k < q.len() - 1 ==> #[trigger] q.drop_last()[k] == q[k]);
        }
        lemma_sum_bounds(q.drop_last());
        lemma_sum_bounds(q);
        assert(budget > 0);
        if entry_size(q.last()) >= budget {
            assert(q.len() == 1);
        } else {
            lemma_evict_count_all(q.drop_last(), budget - entry_size(q.last()));
        }
    }
}

/// Popping the queue's back entry and flagging its range purged restores
/// the tracker invariant.
#[verifier::rlimit(100)]
proof fn lemma_evict_restore(t0: Tracker, t1: Tracker, e: LruEntry)
    requires
        t0.wf(),
        t0.lru.entries@.len() > 0,
        e == t0.lru.entries@.last(),
        t1.lru.wf(),
        t1.lru.entries@ == t0.lru.entries@.drop_last(),
        t1.n_objects() == t0.n_objects(),
        (e.obj as int) < t0.n_objects(),
        forall|o: int|
            0 <= o < t0.n_objects() && o != e.obj
                ==> (#[trigger] t1.objects@[o])@ == t0.objects@[o]@,
        t1.area_seq(e.obj as int).len() == t0.area_seq(e.obj as int).len(),
        forall|i: int|
            0 <= i < t0.area_seq(e.obj as int).len()
                && (#[trigger] t0.area_seq(e.obj as int)[i]).pgstart != e.pgstart
                ==> t1.area_seq(e.obj as int)[i] == t0.area_seq(e.obj as int)[i],
        forall|i: int|
            0 <= i < t0.area_seq(e.obj as int).len()
                && (#[trigger] t0.area_seq(e.obj as int)[i]).pgstart == e.pgstart
                ==> t1.area_seq(e.obj as int)[i]
                    == (Range { purged: true, ..t0.area_seq(e.obj as int)[i] }),
    ensures
        t1.wf(),
{
    let q0 = t0.lru.entries@;
    let q1 = t1.lru.entries@;
    let s0 = t0.area_seq(e.obj as int);
    let s1 = t1.area_seq(e.obj as int);
    let last_k = q0.len() - 1;
    assert(forall|k: int| 0 <= k < q1.len() ==> #[trigger] q1[k] == q0[k]);
    assert forall|k: int| 0 <= k < q1.len() implies {
        let en = #[trigger] q1[k];
        &&& (en.obj as int) < t1.n_objects()
        &&& entry_matches(t1.area_seq(en.obj as int), en)
    } by {
        let en = q1[k];
        assert(en == q0[k]);
        if en.obj == e.obj {
            let i = choose|i: int|
                0 <= i < s0.len() && (#[trigger] s0[i]).pgstart == en.pgstart
                    && s0[i].pgend == en.pgend && !s0[i].purged;
            if s0[i].pgstart == e.pgstart {
                assert(!(q0[k].obj == q0[last_k].obj && q0[k].pgstart == q0[last_k].pgstart));
                assert(false);
            }
            assert(s1[i] == s0[i]);
            assert(entry_matches(s1, en));
        } else {
            assert(t1.area_seq(en.obj as int) == t0.area_seq(en.obj as int));
        }
    }
    assert forall|o: usize, i: int|
        (o as int) < t1.n_objects() && 0 <= i < t1.area_seq(o as int).len()
            && !(#[trigger] t1.area_seq(o as int)[i]).purged
        implies lru_has(q1, o, t1.area_seq(o as int)[i].pgstart) by {
        let r = t1.area_seq(o as int)[i];
        if o == e.obj {
            assert(s0[i].pgstart != e.pgstart);
            assert(r == s0[i] && !s0[i].purged);
            assert(lru_has(q0, o, r.pgstart));
            let k = choose|k: int|
                0 <= k < q0.len() && (#[trigger] q0[k]).obj == o && q0[k].pgstart == r.pgstart;
            assert(k != last_k);
            assert(q1[k] == q0[k]);
        } else {
            assert(t1.area_seq(o as int) == t0.area_seq(o as int));
            assert(lru_has(q0, o, r.pgstart));
            let k = choose|k: int|
                0 <= k < q0.len() && (#[trigger] q0[k]).obj == o && q0[k].pgstart == r.pgstart;
            assert(k != last_k);
            assert(q1[k] == q0[k]);
        }
    }
    assert forall|o: int| 0 <= o < t1.n_objects()
        implies area_wf((#[trigger] t1.objects@[o])@) by {
        if o != e.obj {
            assert(t1.objects@[o]@ == t0.objects@[o]@);
        } else {
            assert forall|i: int| 0 <= i < s1.len()
                implies (#[trigger] s1[i]).pgstart == (#[trigger] s0[i]).pgstart
                    && s1[i].pgend == s0[i].pgend by {}
            lemma_extents_covers(s0, s1);
            assert(t1.objects@[o]@ == s1);
        }
    }
}

/// Accounting law: in every reachable tracker state the running total
/// equals the sum of the sizes of the reclaim queue's members.
pub proof fn lemma_accounting(t: Tracker)
    requires
        t.wf(),
    ensures
        t.lru.count == lru_sum(t.lru.entries@),
{
}

/// Purge stickiness law: once a range of an object stands purged with
/// its bounds — as after an eviction — a pin-status query over any part
/// of it still answers unpinned, and the was-purged answer of a pin over
/// that part is owed.
pub proof fn lemma_purge_sticky(t: Tracker, obj: usize, i: int, qs: int, qe: int)
    requires
        t.wf(),
        (obj as int) < t.n_objects(),
        0 <= i < t.area_seq(obj as int).len(),
        t.area_seq(obj as int)[i].purged,
        t.area_seq(obj as int)[i].pgstart <= qs <= qe <= t.area_seq(obj as int)[i].pgend,
    ensures
        forall|p: int| qs <= p <= qe ==> covers(t.area_seq(obj as int), p),
        exists|p: int| qs <= p <= qe && purged_at(t.area_seq(obj as int), p),
{
    let s = t.area_seq(obj as int);
    assert forall|p: int| qs <= p <= qe implies covers(s, p) by {
        assert(rng_contains(s[i], p));
    }
    assert(rng_contains(s[i], qs));
    assert(purged_at(s, qs));
}

/// Object isolation law: every mutation names one object, and its frame
/// condition leaves every other object's area exactly as it stood, so
/// callers working on distinct objects never observe each other's state.
/// (The embedding layer's single lock serializes the calls themselves.)
pub proof fn lemma_disjoint_objects(t0: Tracker, t1: Tracker, o1: int, o2: int)
    requires
        t0.n_objects() == t1.n_objects(),
        0 <= o1 < t0.n_objects(),
        0 <= o2 < t0.n_objects(),
        o1 != o2,
        forall|o: int|
            0 <= o < t0.n_objects() && o != o1
                ==> (#[trigger] t1.objects@[o])@ == t0.objects@[o]@,
    ensures
        t1.area_seq(o2) == t0.area_seq(o2),
{
}

/// Sum bookkeeping when eviction takes one more entry off the back: the
/// evicted suffix grows by exactly that entry's size and never exceeds
/// the whole queue's total.
proof fn lemma_evict_sums(q: Seq<LruEntry>, done: int, count0: int)
    requires
        entries_wf(q),
        0 <= done < q.len(),
        count0 == lru_sum(q),
    ensures
        lru_sum(q.skip(q.len() - done - 1)) == entry_size(q[q.len() - done - 1]) + lru_sum(
            q.skip(q.len() - done),
        ),
        0 <= lru_sum(q.skip(q.len() - done)),
        lru_sum(q.skip(q.len() - done - 1)) <= count0,
        q.take(q.len() - done).drop_last() == q.take(q.len() - done - 1),
        q.take(q.len() - done).last() == q[q.len() - done - 1],
{
    let n = q.len() as int;
    let e = q[n - done - 1];
    assert(q.skip(n - done - 1) =~= seq![e] + q.skip(n - done));
    lemma_sum_concat(seq![e], q.skip(n - done));
    lemma_sum_one(e);
    assert(entries_wf(q.skip(n - done))) by {
        assert(forall|k: int|
            0 <= k < done ==> #[trigger] q.skip(n - done)[k] == q[k + n - done]);
    }
    lemma_sum_bounds(q.skip(n - done));
    lemma_sum_split(q, n - done - 1);
    assert(entries_wf(q.take(n - done - 1))) by {
        assert(forall|k: int|
            0 <= k < n - done - 1 ==> #[trigger] q.take(n - done - 1)[k] == q[k]);
    }
    lemma_sum_bounds(q.take(n - done - 1));
    assert(q.take(n - done).drop_last() =~= q.take(n - done - 1));
}

/// One eviction step: after the back entry is popped and its range is
/// flagged purged, the tracker invariant holds again, the running total
/// dropped by the entry's size, and the purge flags record exactly the
/// grown evicted suffix.
#[verifier::rlimit(100)]
proof fn lemma_evict_step(
    t0: Tracker,
    t_pre: Tracker,
    t1: Tracker,
    q_init: Seq<LruEntry>,
    done: int,
    e: LruEntry,
)
    requires
        t0.wf(),
        t_pre.wf(),
        q_init == t0.lru.entries@,
        0 <= done < q_init.len(),
        t_pre.n_objects() == t0.n_objects(),
        t_pre.lru.entries@ == q_init.take(q_init.len() - done),
        t_pre.lru.count == t0.lru.count - lru_sum(q_init.skip(q_init.len() - done)),
        e == q_init[q_init.len() - done - 1],
        (e.obj as int) < t_pre.n_objects(),
        forall|o: int|
            0 <= o < t0.n_objects()
                ==> (#[trigger] t_pre.area_seq(o)).len() == t0.area_seq(o).len(),
        forall|o: usize, i: int|
            (o as int) < t0.n_objects() && 0 <= i < t0.area_seq(o as int).len() ==> {
                let r0 = #[trigger] t0.area_seq(o as int)[i];
                &&& t_pre.area_seq(o as int)[i].pgstart == r0.pgstart
                &&& t_pre.area_seq(o as int)[i].pgend == r0.pgend
                &&& t_pre.area_seq(o as int)[i].purged == (r0.purged || lru_has(
                    q_init.skip(q_init.len() - done),
                    o,
                    r0.pgstart,
                ))
            },
        t1.n_objects() == t_pre.n_objects(),
        t1.lru.wf(),
        t1.lru.entries@ == t_pre.lru.entries@.drop_last(),
        t1.lru.count == t_pre.lru.count - entry_size(e),
        forall|o: int|
            0 <= o < t_pre.n_objects() && o != e.obj
                ==> (#[trigger] t1.objects@[o])@ == t_pre.objects@[o]@,
        t1.area_seq(e.obj as int).len() == t_pre.area_seq(e.obj as int).len(),
        forall|i: int|
            0 <= i < t_pre.area_seq(e.obj as int).len()
                && (#[trigger] t_pre.area_seq(e.obj as int)[i]).pgstart != e.pgstart
                ==> t1.area_seq(e.obj as int)[i] == t_pre.area_seq(e.obj as int)[i],
        forall|i: int|
            0 <= i < t_pre.area_seq(e.obj as int).len()
                && (#[trigger] t_pre.area_seq(e.obj as int)[i]).pgstart == e.pgstart
                ==> t1.area_seq(e.obj as int)[i]
                    == (Range { purged: true, ..t_pre.area_seq(e.obj as int)[i] }),
    ensures
        t1.wf(),
        t1.lru.entries@ == q_init.take(q_init.len() - done - 1),
        t1.lru.count == t0.lru.count - lru_sum(q_init.skip(q_init.len() - done - 1)),
        forall|o: int|
            0 <= o < t0.n_objects()
                ==> (#[trigger] t1.area_seq(o)).len() == t0.area_seq(o).len(),
        forall|o: usize, i: int|
            (o as int) < t0.n_objects() && 0 <= i < t0.area_seq(o as int).len() ==> {
                let r0 = #[trigger] t0.area_seq(o as int)[i];
                &&& t1.area_seq(o as int)[i].pgstart == r0.pgstart
                &&& t1.area_seq(o as int)[i].pgend == r0.pgend
                &&& t1.area_seq(o as int)[i].purged == (r0.purged || lru_has(
                    q_init.skip(q_init.len() - done - 1),
                    o,
                    r0.pgstart,
                ))
            },
{
    let n = q_init.len() as int;
    assert(entries_wf(q_init) && lru_distinct(q_init));
    lemma_evict_sums(q_init, done, lru_sum(q_init));
    assert(t_pre.lru.entries@.last() == e);
    assert(t_pre.lru.entries@.drop_last() =~= q_init.take(n - done - 1));
    lemma_evict_restore(t_pre, t1, e);
    assert forall|o: int| 0 <= o < t0.n_objects()
        implies (#[trigger] t1.area_seq(o)).len() == t0.area_seq(o).len() by {
        assert(t_pre.area_seq(o).len() == t0.area_seq(o).len());
        if o != e.obj {
            assert(t1.objects@[o]@ == t_pre.objects@[o]@);
            assert(t1.area_seq(o) == t1.objects@[o]@);
            assert(t_pre.area_seq(o) == t_pre.objects@[o]@);
        } else {
            assert(t1.area_seq(o).len() == t_pre.area_seq(o).len());
        }
    }
    let sk1 = q_init.skip(n - done - 1);
    let sk = q_init.skip(n - done);
    assert(sk1 =~= seq![e] + sk);
    assert forall|o: usize, i: int|
        (o as int) < t0.n_objects() && 0 <= i < t0.area_seq(o as int).len()
        implies {
            let r0 = #[trigger] t0.area_seq(o as int)[i];
            &&& t1.area_seq(o as int)[i].pgstart == r0.pgstart
            &&& t1.area_seq(o as int)[i].pgend == r0.pgend
            &&& t1.area_seq(o as int)[i].purged == (r0.purged || lru_has(sk1, o, r0.pgstart))
        } by {
        let r0 = t0.area_seq(o as int)[i];
        assert(forall|k: int| 0 <= k < sk.len() ==> #[trigger] sk[k] == sk1[k + 1]);
        assert(sk1[0] == e);
        if lru_has(sk, o, r0.pgstart) {
            let k = choose|k: int|
                0 <= k < sk.len() && (#[trigger] sk[k]).obj == o
                    && sk[k].pgstart == r0.pgstart;
            assert(sk1[k + 1] == sk[k]);
            assert(lru_has(sk1, o, r0.pgstart));
        }
        if o == e.obj && r0.pgstart == e.pgstart {
            assert(lru_has(sk1, o, r0.pgstart));
        }
        if lru_has(sk1, o, r0.pgstart) && !(o == e.obj && r0.pgstart == e.pgstart) {
            let k = choose|k: int|
                0 <= k < sk1.len() && (#[trigger] sk1[k]).obj == o
                    && sk1[k].pgstart == r0.pgstart;
            assert(k > 0);
            assert(sk[k - 1] == sk1[k]);
            assert(lru_has(sk, o, r0.pgstart));
        }
        assert(t_pre.area_seq(o as int)[i].pgstart == r0.pgstart);
    }
}

/// While the first overlapped entry reaches above a request `[qs, qe]`,
/// no range of the area starts at `qe + 1`.
proof fn lemma_pin_no_collision(a0: Seq<Range>, a: int, b: int, qs: int, qe: int)
    requires
        area_wf(a0),
        0 <= a < b <= a0.len(),
        0 <= qs <= qe <= MAX_PAGE,
        forall|i: int| 0 <= i < a ==> (#[trigger] a0[i]).pgstart > qe,
        a0[a].pgstart <= qe,
        forall|i: int| a <= i < b ==> (#[trigger] a0[i]).pgend >= qs,
        b < a0.len() ==> a0[b].pgend < qs,
        a0[a].pgend > qe,
    ensures
        forall|j: int| 0 <= j < a0.len() ==> (#[trigger] a0[j]).pgstart != (qe + 1) as usize,
{
    lemma_pin_cut(a0, a, b, qs, qe);
    lemma_disjoint_pairs(a0);
    assert forall|j: int| 0 <= j < a0.len()
        implies (#[trigger] a0[j]).pgstart != (qe + 1) as usize by {
        if j < a {
            if j < a - 1 {
                lemma_wf_separated(a0, j, a - 1);
                assert(rng_wf(a0[a - 1]));
            }
            if j == a - 1 {
                lemma_wf_separated(a0, a - 1, a);
            }
            assert(a0[j].pgstart >= a0[a].pgend + 2);
        } else if j == a {
        } else if j < b {
            assert(a0[j].pgend <= qe);
            assert(rng_wf(a0[j]));
        } else {
            assert(a0[j].pgend < qs);
            assert(rng_wf(a0[j]));
        }
    }
}

/// The shared picture after a pin of `[qs, qe]` cut the overlap span
/// `[a, b)` out of object `obj`: which entries each area holds afterwards,
/// and how the queue was rewritten entry by entry before the absorbed span
/// was removed and a hole-punch piece possibly pushed.
pub open spec fn pin_ctx(
    t0: Tracker,
    t1: Tracker,
    obj: usize,
    a: int,
    b: int,
    qs: int,
    qe: int,
    q_mid: Seq<LruEntry>,
) -> bool {
    &&& t0.wf()
    &&& (obj as int) < t0.n_objects()
    &&& 0 <= a <= b <= t0.area_seq(obj as int).len()
    &&& 0 <= qs <= qe <= MAX_PAGE
    &&& (forall|i: int| 0 <= i < a ==> (#[trigger] t0.area_seq(obj as int)[i]).pgstart > qe)
    &&& (a < b ==> t0.area_seq(obj as int)[a].pgstart <= qe)
    &&& (forall|i: int| a <= i < b ==> (#[trigger] t0.area_seq(obj as int)[i]).pgend >= qs)
    &&& (b < t0.area_seq(obj as int).len() ==> t0.area_seq(obj as int)[b].pgend < qs)
    &&& t1.n_objects() == t0.n_objects()
    &&& (forall|o: int|
        0 <= o < t0.n_objects() && o != obj
            ==> (#[trigger] t1.objects@[o])@ == t0.objects@[o]@)
    &&& t1.area_seq(obj as int) == t0.area_seq(obj as int).take(a)
        + pin_pieces(t0.area_seq(obj as int), a, b, qs, qe)
        + t0.area_seq(obj as int).skip(b)
    &&& q_mid.len() == t0.lru.entries@.len()
    &&& (forall|k: int|
        0 <= k < q_mid.len() ==> #[trigger] q_mid[k] == pin_mid_entry(
            t0.area_seq(obj as int),
            a,
            b,
            qs,
            qe,
            obj,
            t0.lru.entries@[k],
        ))
    &&& t1.lru.wf()
    &&& t1.lru.entries@ == (if a < b && t0.area_seq(obj as int)[a].pgend > qe
        && t0.area_seq(obj as int)[a].pgstart < qs
        && !t0.area_seq(obj as int)[a].purged {
        seq![
            LruEntry {
                obj,
                pgstart: (qe + 1) as usize,
                pgend: t0.area_seq(obj as int)[a].pgend,
            },
        ]
    } else {
        Seq::<LruEntry>::empty()
    }) + without_span(q_mid, obj, qs, qe)
}

/// The entry rewrites keep the queue well formed and its identities
/// distinct; while the first overlapped entry reaches above the request,
/// no identity of the object sits at `qe + 1`.
#[verifier::rlimit(100)]
proof fn lemma_pin_mid_shape(
    t0: Tracker,
    obj: usize,
    a: int,
    b: int,
    qs: int,
    qe: int,
    q_mid: Seq<LruEntry>,
)
    requires
        t0.wf(),
        (obj as int) < t0.n_objects(),
        0 <= a <= b <= t0.area_seq(obj as int).len(),
        0 <= qs <= qe <= MAX_PAGE,
        forall|i: int| 0 <= i < a ==> (#[trigger] t0.area_seq(obj as int)[i]).pgstart > qe,
        a < b ==> t0.area_seq(obj as int)[a].pgstart <= qe,
        forall|i: int| a <= i < b ==> (#[trigger] t0.area_seq(obj as int)[i]).pgend >= qs,
        b < t0.area_seq(obj as int).len() ==> t0.area_seq(obj as int)[b].pgend < qs,
        q_mid.len() == t0.lru.entries@.len(),
        forall|k: int|
            0 <= k < q_mid.len() ==> #[trigger] q_mid[k] == pin_mid_entry(
                t0.area_seq(obj as int),
                a,
                b,
                qs,
                qe,
                obj,
                t0.lru.entries@[k],
            ),
    ensures
        entries_wf(q_mid),
        lru_distinct(q_mid),
        a < b && t0.area_seq(obj as int)[a].pgend > qe
            ==> !lru_has(t0.lru.entries@, obj, (qe + 1) as usize),
{
    let a0 = t0.area_seq(obj as int);
    let q0 = t0.lru.entries@;
    let has_up = a < b && a0[a].pgend > qe;
    lemma_pin_cut(a0, a, b, qs, qe);
    lemma_disjoint_pairs(a0);
    if has_up {
        assert forall|j: int| 0 <= j < a0.len()
            implies (#[trigger] a0[j]).pgstart != (qe + 1) as usize by {
            if j < a {
                if j < a - 1 {
                    lemma_wf_separated(a0, j, a - 1);
                    assert(rng_wf(a0[a - 1]));
                }
                if j == a - 1 {
                    lemma_wf_separated(a0, a - 1, a);
                }
                assert(a0[j].pgstart >= a0[a].pgend + 2);
            } else if j == a {
            } else if j < b {
                assert(a0[j].pgend <= qe);
                assert(rng_wf(a0[j]));
            } else {
                assert(a0[j].pgend < qs);
                assert(rng_wf(a0[j]));
            }
        }
        lemma_no_queue_entry_at(t0, obj, (qe + 1) as usize);
    }
    assert forall|k: int| 0 <= k < q_mid.len()
        implies (#[trigger] q_mid[k]).pgstart <= q_mid[k].pgend <= MAX_PAGE by {
        assert(q0[k].pgstart <= q0[k].pgend <= MAX_PAGE);
        if a < b {
            assert(rng_wf(a0[a]) && rng_wf(a0[b - 1]));
        }
    }
    assert forall|k1: int, k2: int| 0 <= k1 < k2 < q_mid.len()
        implies !((#[trigger] q_mid[k1]).obj == (#[trigger] q_mid[k2]).obj
            && q_mid[k1].pgstart == q_mid[k2].pgstart) by {
        let e1 = q0[k1];
        let e2 = q0[k2];
        assert(!(e1.obj == e2.obj && e1.pgstart == e2.pgstart));
        if q_mid[k1].obj == q_mid[k2].obj && q_mid[k1].pgstart == q_mid[k2].pgstart {
            if q_mid[k1] != e1 && q_mid[k2] != e2 {
                assert(e1.pgstart == e2.pgstart && e1.obj == obj && e2.obj == obj);
                assert(false);
            } else if q_mid[k1] != e1 {
                assert(q_mid[k2] == e2);
                if q_mid[k1].pgstart != e1.pgstart {
                    assert(q_mid[k1].pgstart == (qe + 1) as usize);
                    assert(0 <= k2 < q0.len() && q0[k2].obj == obj
                        && q0[k2].pgstart == (qe + 1) as usize);
                    assert(lru_has(q0, obj, (qe + 1) as usize));
                    assert(false);
                }
            } else if q_mid[k2] != e2 {
                assert(q_mid[k1] == e1);
                if q_mid[k2].pgstart != e2.pgstart {
                    assert(q_mid[k2].pgstart == (qe + 1) as usize);
                    assert(0 <= k1 < q0.len() && q0[k1].obj == obj
                        && q0[k1].pgstart == (qe + 1) as usize);
                    assert(lru_has(q0, obj, (qe + 1) as usize));
                    assert(false);
                }
            }
            assert(false);
        }
    }
}

/// Every entry of the rewritten queue names a live non-purged range of
/// the cut areas.
#[verifier::rlimit(100)]
#[verifier::spinoff_prover]
proof fn lemma_pin_entries_live(
    t0: Tracker,
    t1: Tracker,
    obj: usize,
    a: int,
    b: int,
    qs: int,
    qe: int,
    q_mid: Seq<LruEntry>,
)
    requires
        pin_ctx(t0, t1, obj, a, b, qs, qe, q_mid),
    ensures
        forall|k: int|
            0 <= k < t1.lru.entries@.len() ==> {
                let e = #[trigger] t1.lru.entries@[k];
                &&& (e.obj as int) < t1.n_objects()
                &&& entry_matches(t1.area_seq(e.obj as int), e)
            },
{
    let a0 = t0.area_seq(obj as int);
    let a1 = t1.area_seq(obj as int);
    let q0 = t0.lru.entries@;
    let q1 = t1.lru.entries@;
    let ps = pin_pieces(a0, a, b, qs, qe);
    let np = ps.len() as int;
    let has_up = a < b && a0[a].pgend > qe;
    let has_low = a < b && a0[b - 1].pgstart < qs;
    let c4 = a < b && a0[a].pgend > qe && a0[a].pgstart < qs;
    let pushed = c4 && !a0[a].purged;
    lemma_pin_cut(a0, a, b, qs, qe);
    lemma_disjoint_pairs(a0);
    lemma_pin_mid_shape(t0, obj, a, b, qs, qe, q_mid);
    lemma_without_span_props(q_mid, obj, qs, qe);
    let w = without_span(q_mid, obj, qs, qe);
    assert(forall|i: int| 0 <= i < a ==> #[trigger] a1[i] == a0[i]);
    assert(forall|j: int|
        a + np <= j < a1.len() ==> #[trigger] a1[j] == a0[j - a - np + b]);
    if has_up {
        assert(a1[a] == ps[0]);
    }
    if has_low {
        assert(a1[a + np - 1] == ps[np - 1]);
    }
    if c4 {
        assert(a == b - 1);
    }
    assert forall|k: int| 0 <= k < q1.len() implies {
        let e = #[trigger] q1[k];
        &&& (e.obj as int) < t1.n_objects()
        &&& entry_matches(t1.area_seq(e.obj as int), e)
    } by {
        let e = q1[k];
        if pushed && k == 0 {
            assert(a1[a].pgstart == e.pgstart && a1[a].pgend == e.pgend && !a1[a].purged);
        } else {
            let kw = if pushed { k - 1 } else { k };
            assert(e == w[kw]);
            let k0 = choose|k0: int| 0 <= k0 < q_mid.len() && q_mid[k0] == w[kw];
            let eo = q0[k0];
            assert(e == pin_mid_entry(a0, a, b, qs, qe, obj, eo));
            assert(lru_has(w, e.obj, e.pgstart)) by {
                assert(0 <= kw < w.len() && w[kw].obj == e.obj
                    && w[kw].pgstart == e.pgstart);
            }
            assert(!(e.obj == obj && qs <= e.pgstart <= qe));
            if e.obj != obj {
                assert(e == eo);
                assert(t1.area_seq(e.obj as int) == t0.area_seq(e.obj as int));
            } else {
                if e != eo {
                    // a rewritten entry names one of the cut pieces
                    if a0[a].pgend > qe && a0[a].pgstart >= qs
                        && eo.pgstart == a0[a].pgstart {
                        lemma_queue_entry_bounds(t0, obj, a);
                        assert(!a0[a].purged);
                        assert(a1[a] == ps[0]);
                        assert(a1[a].pgstart == e.pgstart && a1[a].pgend == e.pgend
                            && !a1[a].purged);
                    } else if a0[a].pgend > qe && a0[a].pgstart < qs
                        && eo.pgstart == a0[a].pgstart {
                        lemma_queue_entry_bounds(t0, obj, a);
                        assert(!a0[a].purged);
                        assert(a1[a + np - 1] == ps[np - 1]);
                        assert(a1[a + np - 1].pgstart == e.pgstart
                            && a1[a + np - 1].pgend == e.pgend
                            && !a1[a + np - 1].purged);
                    } else {
                        lemma_queue_entry_bounds(t0, obj, b - 1);
                        assert(!a0[b - 1].purged);
                        assert(a1[a + np - 1] == ps[np - 1]);
                        assert(a1[a + np - 1].pgstart == e.pgstart
                            && a1[a + np - 1].pgend == e.pgend
                            && !a1[a + np - 1].purged);
                    }
                } else {
                    // an untouched entry's range lies outside the span
                    let i = choose|i: int|
                        0 <= i < a0.len() && (#[trigger] a0[i]).pgstart == eo.pgstart
                            && a0[i].pgend == eo.pgend && !a0[i].purged;
                    if i < a {
                        assert(a1[i] == a0[i]);
                        assert(a1[i].pgstart == e.pgstart && a1[i].pgend == e.pgend
                            && !a1[i].purged);
                    } else if i >= b {
                        assert(a1[i - b + a + np] == a0[i]);
                        assert(a1[i - b + a + np].pgstart == e.pgstart
                            && a1[i - b + a + np].pgend == e.pgend
                            && !a1[i - b + a + np].purged);
                    } else {
                        // inside the span the entry would have been
                        // rewritten or removed
                        if i == a && a0[a].pgend > qe {
                            assert(e != eo);
                            assert(false);
                        } else if a0[i].pgstart >= qs {
                            assert(qs <= e.pgstart <= qe);
                            assert(false);
                        } else {
                            assert(i == b - 1);
                            assert(a0[i].pgend <= qe);
                            assert(e != eo);
                            assert(false);
                        }
                    }
                }
            }
        }
    }
}

/// Every non-purged range of the cut areas keeps its queue entry.
#[verifier::rlimit(100)]
#[verifier::spinoff_prover]
proof fn lemma_pin_ranges_queued(
    t0: Tracker,
    t1: Tracker,
    obj: usize,
    a: int,
    b: int,
    qs: int,
    qe: int,
    q_mid: Seq<LruEntry>,
)
    requires
        pin_ctx(t0, t1, obj, a, b, qs, qe, q_mid),
    ensures
        forall|o: usize, i: int|
            (o as int) < t1.n_objects() && 0 <= i < t1.area_seq(o as int).len()
                && !(#[trigger] t1.area_seq(o as int)[i]).purged
                ==> lru_has(t1.lru.entries@, o, t1.area_seq(o as int)[i].pgstart),
{
    let a0 = t0.area_seq(obj as int);
    let a1 = t1.area_seq(obj as int);
    let q0 = t0.lru.entries@;
    let q1 = t1.lru.entries@;
    let ps = pin_pieces(a0, a, b, qs, qe);
    let np = ps.len() as int;
    let has_up = a < b && a0[a].pgend > qe;
    let has_low = a < b && a0[b - 1].pgstart < qs;
    let c4 = a < b && a0[a].pgend > qe && a0[a].pgstart < qs;
    let pushed = c4 && !a0[a].purged;
    lemma_pin_cut(a0, a, b, qs, qe);
    lemma_disjoint_pairs(a0);
    lemma_pin_mid_shape(t0, obj, a, b, qs, qe, q_mid);
    lemma_without_span_props(q_mid, obj, qs, qe);
    let w = without_span(q_mid, obj, qs, qe);
    assert(forall|i: int| 0 <= i < a ==> #[trigger] a1[i] == a0[i]);
    assert(forall|j: int|
        a + np <= j < a1.len() ==> #[trigger] a1[j] == a0[j - a - np + b]);
    if has_up {
        assert(a1[a] == ps[0]);
    }
    if has_low {
        assert(a1[a + np - 1] == ps[np - 1]);
    }
    if c4 {
        assert(a == b - 1);
    }
    assert forall|o: usize, i: int|
        (o as int) < t1.n_objects() && 0 <= i < t1.area_seq(o as int).len()
            && !(#[trigger] t1.area_seq(o as int)[i]).purged
        implies lru_has(t1.lru.entries@, o, t1.area_seq(o as int)[i].pgstart) by {
        let s1 = t1.area_seq(o as int);
        let r = s1[i];
        if o == obj {
            if i < a {
                assert(r == a0[i] && !r.purged);
                assert(lru_has(q0, obj, r.pgstart));
                let k0 = choose|k0: int|
                    0 <= k0 < q0.len() && (#[trigger] q0[k0]).obj == obj
                        && q0[k0].pgstart == r.pgstart;
                assert(q_mid[k0] == q0[k0]) by {
                    if a < b {
                        if q0[k0].pgstart == a0[a].pgstart {
                            lemma_wf_separated(a0, i, a);
                            assert(rng_wf(a0[a]));
                            assert(false);
                        }
                        if q0[k0].pgstart == a0[b - 1].pgstart {
                            lemma_wf_separated(a0, i, b - 1);
                            assert(rng_wf(a0[b - 1]));
                            assert(false);
                        }
                    }
                }
                assert(lru_has(q_mid, obj, r.pgstart)) by {
                    assert(q_mid[k0].obj == obj && q_mid[k0].pgstart == r.pgstart);
                }
                assert(r.pgstart > qe);
                assert(lru_has(w, obj, r.pgstart));
                lemma_lru_has_front(q1, w, pushed, obj, r.pgstart);
            } else if i >= a + np {
                let i0 = i - a - np + b;
                assert(r == a0[i0] && !r.purged);
                assert(lru_has(q0, obj, r.pgstart));
                let k0 = choose|k0: int|
                    0 <= k0 < q0.len() && (#[trigger] q0[k0]).obj == obj
                        && q0[k0].pgstart == r.pgstart;
                assert(q_mid[k0] == q0[k0]) by {
                    if a < b {
                        if q0[k0].pgstart == a0[a].pgstart {
                            lemma_wf_separated(a0, a, i0);
                            assert(rng_wf(a0[a]));
                            assert(false);
                        }
                        if q0[k0].pgstart == a0[b - 1].pgstart {
                            if b - 1 < i0 {
                                lemma_wf_separated(a0, b - 1, i0);
                                assert(rng_wf(a0[b - 1]));
                            }
                            assert(false);
                        }
                    }
                }
                assert(lru_has(q_mid, obj, r.pgstart)) by {
                    assert(q_mid[k0].obj == obj && q_mid[k0].pgstart == r.pgstart);
                }
                assert(r.pgend < qs);
                assert(rng_wf(a0[i0]));
                assert(lru_has(w, obj, r.pgstart));
                lemma_lru_has_front(q1, w, pushed, obj, r.pgstart);
            } else {
                // one of the pieces
                let src = if has_up && i == a { a } else { b - 1 };
                assert(r.purged == a0[src].purged);
                assert(!a0[src].purged);
                assert(lru_has(q0, obj, a0[src].pgstart));
                let k0 = choose|k0: int|
                    0 <= k0 < q0.len() && (#[trigger] q0[k0]).obj == obj
                        && q0[k0].pgstart == a0[src].pgstart;
                if has_up && i == a {
                    if c4 {
                        assert(pushed);
                        assert(q1[0].obj == obj && q1[0].pgstart == r.pgstart);
                        assert(lru_has(q1, obj, r.pgstart));
                    } else {
                        assert(q_mid[k0] == (LruEntry {
                            obj,
                            pgstart: (qe + 1) as usize,
                            pgend: a0[a].pgend,
                        }));
                        assert(lru_has(q_mid, obj, (qe + 1) as usize)) by {
                            assert(q_mid[k0].obj == obj
                                && q_mid[k0].pgstart == (qe + 1) as usize);
                        }
                        assert(lru_has(w, obj, (qe + 1) as usize));
                        assert(r.pgstart == (qe + 1) as usize);
                        lemma_lru_has_front(q1, w, pushed, obj, r.pgstart);
                    }
                } else {
                    // the lower piece keeps its source's start
                    assert(r == ps[np - 1] && has_low);
                    assert(src == b - 1);
                    assert(q_mid[k0] == (LruEntry {
                        obj,
                        pgstart: a0[b - 1].pgstart,
                        pgend: (qs - 1) as usize,
                    })) by {
                        if a0[a].pgend > qe && a0[a].pgstart < qs {
                            assert(a == b - 1);
                        }
                    }
                    assert(lru_has(q_mid, obj, r.pgstart)) by {
                        assert(q_mid[k0].obj == obj && q_mid[k0].pgstart == r.pgstart);
                    }
                    assert(r.pgstart < qs);
                    assert(lru_has(w, obj, r.pgstart));
                    lemma_lru_has_front(q1, w, pushed, obj, r.pgstart);
                }
            }
        } else {
            assert(t1.area_seq(o as int) == t0.area_seq(o as int));
            assert(lru_has(q0, o, r.pgstart));
            let k0 = choose|k0: int|
                0 <= k0 < q0.len() && (#[trigger] q0[k0]).obj == o
                    && q0[k0].pgstart == r.pgstart;
            assert(q_mid[k0] == q0[k0]);
            assert(lru_has(q_mid, o, r.pgstart)) by {
                assert(q_mid[k0].obj == o && q_mid[k0].pgstart == r.pgstart);
            }
            assert(lru_has(w, o, r.pgstart));
            lemma_lru_has_front(q1, w, pushed, o, r.pgstart);
        }
    }
}

/// After a pin cut, the rewritten queue and the cut areas satisfy the
/// tracker invariant again.
proof fn lemma_pin_restore(
    t0: Tracker,
    t1: Tracker,
    obj: usize,
    a: int,
    b: int,
    qs: int,
    qe: int,
    q_mid: Seq<LruEntry>,
)
    requires
        pin_ctx(t0, t1, obj, a, b, qs, qe, q_mid),
    ensures
        t1.wf(),
{
    let a0 = t0.area_seq(obj as int);
    lemma_pin_splice_wf(a0, a, b, qs, qe);
    lemma_pin_entries_live(t0, t1, obj, a, b, qs, qe, q_mid);
    lemma_pin_ranges_queued(t0, t1, obj, a, b, qs, qe, q_mid);
    assert forall|o: int| 0 <= o < t1.n_objects()
        implies area_wf((#[trigger] t1.objects@[o])@) by {
        if o != obj {
            assert(t1.objects@[o]@ == t0.objects@[o]@);
        } else {
            assert(t1.objects@[o]@ == t1.area_seq(obj as int));
        }
    }
}

/// An identity present in the survivors is present in the final queue,
/// whether or not a new front entry was pushed.
proof fn lemma_lru_has_front(
    q1: Seq<LruEntry>,
    w: Seq<LruEntry>,
    pushed: bool,
    o: usize,
    start: usize,
)
    requires
        lru_has(w, o, start),
        pushed ==> q1.len() == w.len() + 1 && (forall|k: int|
            0 <= k < w.len() ==> #[trigger] q1[k + 1] == w[k]),
        !pushed ==> q1 == w,
    ensures
        lru_has(q1, o, start),
{
    let k = choose|k: int| 0 <= k < w.len() && (#[trigger] w[k]).obj == o && w[k].pgstart == start;
    if pushed {
        assert(q1[k + 1] == w[k]);
    }
}

/// The hypotheses of the unpin merge: the span `[hi, lo)` the request
/// touches and the merged range the absorb loop computed over it.
pub open spec fn unpin_ctx(
    a0: Seq<Range>,
    hi: int,
    lo: int,
    qs: int,
    qe: int,
    merged: Range,
) -> bool {
    &&& area_wf(a0)
    &&& 0 <= hi <= lo <= a0.len()
    &&& 0 <= qs <= qe <= MAX_PAGE
    &&& (forall|i: int| 0 <= i < hi ==> (#[trigger] a0[i]).pgstart > qe + 1)
    &&& (hi < a0.len() ==> a0[hi].pgstart <= qe + 1)
    &&& (forall|i: int| hi <= i < lo ==> (#[trigger] a0[i]).pgend + 1 >= qs)
    &&& (lo < a0.len() ==> a0[lo].pgend + 1 < qs)
    &&& merged.pgstart <= qs
    &&& qe <= merged.pgend <= MAX_PAGE
    &&& (forall|k: int|
        hi <= k < lo ==> merged.pgstart <= (#[trigger] a0[k]).pgstart
            && a0[k].pgend <= merged.pgend)
    &&& (merged.pgstart == qs || (merged.pgstart < qs && exists|k: int|
        hi <= k < lo && (#[trigger] a0[k]).pgstart == merged.pgstart))
    &&& (merged.pgend == qe || (merged.pgend > qe && exists|k: int|
        hi <= k < lo && (#[trigger] a0[k]).pgend == merged.pgend))
    &&& merged.purged == (exists|k: int| hi <= k < lo && (#[trigger] a0[k]).purged)
}

/// Structural half of the unpin merge: the touch-set is exactly the span,
/// the merged range separates cleanly from its neighbours, and splicing it
/// in is well formed.
#[verifier::rlimit(100)]
proof fn lemma_unpin_merge_wf(
    a0: Seq<Range>,
    hi: int,
    lo: int,
    qs: int,
    qe: int,
    merged: Range,
)
    requires
        unpin_ctx(a0, hi, lo, qs, qe, merged),
    ensures
        area_wf(splice_seq(a0, hi, lo, merged)),
        forall|i: int|
            0 <= i < a0.len() ==> (rng_touches(#[trigger] a0[i], qs, qe) <==> hi <= i < lo),
        forall|i: int|
            0 <= i < a0.len()
                ==> ((merged.pgstart <= (#[trigger] a0[i]).pgstart <= merged.pgend)
                    <==> hi <= i < lo),
        rng_wf(merged),
        forall|k: int| hi <= k < lo ==> (#[trigger] a0[k]).pgstart <= qe + 1,
{
    let a1 = splice_seq(a0, hi, lo, merged);
    let shift = lo - hi - 1;
    lemma_disjoint_pairs(a0);
    assert(forall|i: int| 0 <= i < hi ==> #[trigger] a1[i] == a0[i]);
    assert(a1[hi] == merged);
    assert(forall|j: int| hi < j < a1.len() ==> #[trigger] a1[j] == a0[j + shift]);
    assert(a1.len() == a0.len() - (lo - hi) + 1);

    // Every touched entry starts at or below qe + 1.
    assert forall|k: int| hi <= k < lo implies (#[trigger] a0[k]).pgstart <= qe + 1 by {
        if k > hi {
            lemma_wf_separated(a0, hi, k);
        }
    }
    // Entries at or past lo end strictly below qs - 1.
    assert forall|k: int| lo <= k < a0.len() implies (#[trigger] a0[k]).pgend + 1 < qs by {
        if k > lo {
            lemma_wf_separated(a0, lo, k);
        }
    }
    // The touch-set is exactly [hi, lo).
    assert forall|i: int| 0 <= i < a0.len()
        implies (rng_touches(#[trigger] a0[i], qs, qe) <==> hi <= i < lo) by {}

    // Entries above the span start beyond the merged end.
    assert forall|i: int| 0 <= i < hi implies (#[trigger] a0[i]).pgstart >= merged.pgend + 2 by {
        if merged.pgend == qe {
        } else {
            let k = choose|k: int| hi <= k < lo && (#[trigger] a0[k]).pgend == merged.pgend;
            if i < k {
                lemma_wf_separated(a0, i, k);
            }
        }
    }
    // Entries below the span end before the merged start.
    assert forall|i: int| lo <= i < a0.len()
        implies (#[trigger] a0[i]).pgend + 2 <= merged.pgstart by {
        if merged.pgstart == qs {
        } else {
            let k = choose|k: int| hi <= k < lo && (#[trigger] a0[k]).pgstart == merged.pgstart;
            if k < i {
                lemma_wf_separated(a0, k, i);
            }
        }
    }
    assert forall|i: int| 0 <= i < a0.len()
        implies ((merged.pgstart <= (#[trigger] a0[i]).pgstart <= merged.pgend)
            <==> hi <= i < lo) by {
        assert(rng_wf(a0[i]));
    }

    // Well-formedness of the spliced area.
    assert(rng_wf(merged));
    assert forall|j: int| 0 < j < a1.len()
        implies (#[trigger] a1[j]).pgend + 2 <= a1[j - 1].pgstart by {
        if j < hi {
        } else if j == hi {
        } else if j == hi + 1 {
            assert(a1[j] == a0[j + shift]);
        } else {
            assert(a1[j] == a0[j + shift] && a1[j - 1] == a0[j - 1 + shift]);
        }
    }
    assert forall|j: int| 0 <= j < a1.len() implies rng_wf(#[trigger] a1[j]) by {
        if j < hi {
        } else if j == hi {
        } else {
            assert(a1[j] == a0[j + shift]);
        }
    }
    assert(area_wf(a1));
}

/// Coverage half of the unpin merge: afterwards exactly the old pages and
/// the request's pages are unpinned.
#[verifier::rlimit(100)]
proof fn lemma_unpin_merge_covers(
    a0: Seq<Range>,
    hi: int,
    lo: int,
    qs: int,
    qe: int,
    merged: Range,
)
    requires
        unpin_ctx(a0, hi, lo, qs, qe, merged),
    ensures
        forall|p: int|
            #[trigger] covers(splice_seq(a0, hi, lo, merged), p)
                <==> (covers(a0, p) || qs <= p <= qe),
{
    let a1 = splice_seq(a0, hi, lo, merged);
    let shift = lo - hi - 1;
    lemma_disjoint_pairs(a0);
    lemma_unpin_merge_wf(a0, hi, lo, qs, qe, merged);
    assert(forall|i: int| 0 <= i < hi ==> #[trigger] a1[i] == a0[i]);
    assert(a1[hi] == merged);
    assert(forall|j: int| hi < j < a1.len() ==> #[trigger] a1[j] == a0[j + shift]);

    assert forall|p: int| #[trigger] covers(a1, p)
        implies (covers(a0, p) || qs <= p <= qe) by {
        let j = choose|j: int| 0 <= j < a1.len() && rng_contains(#[trigger] a1[j], p);
        if j < hi {
            assert(rng_contains(a0[j], p));
        } else if j > hi {
            assert(rng_contains(a0[j + shift], p));
        } else {
            if p < qs {
                assert(merged.pgstart < qs);
                let k = choose|k: int|
                    hi <= k < lo && (#[trigger] a0[k]).pgstart == merged.pgstart;
                assert forall|k2: int| hi <= k2 < lo
                    implies (#[trigger] a0[k2]).pgstart >= a0[lo - 1].pgstart by {
                    if k2 < lo - 1 {
                        lemma_wf_separated(a0, k2, lo - 1);
                        assert(rng_wf(a0[lo - 1]));
                    }
                }
                assert(a0[lo - 1].pgend + 1 >= qs);
                assert(a0[lo - 1].pgstart <= merged.pgstart);
                assert(rng_contains(a0[lo - 1], p));
            } else if p > qe {
                assert(merged.pgend > qe);
                assert forall|k2: int| hi <= k2 < lo
                    implies (#[trigger] a0[k2]).pgend <= a0[hi].pgend by {
                    if k2 > hi {
                        lemma_wf_separated(a0, hi, k2);
                        assert(rng_wf(a0[k2]));
                    }
                }
                assert(a0[hi].pgend >= merged.pgend);
                assert(a0[hi].pgstart <= qe + 1);
                assert(rng_contains(a0[hi], p));
            }
        }
    }
    assert forall|p: int| covers(a0, p) implies #[trigger] covers(a1, p) by {
        let j = choose|j: int| 0 <= j < a0.len() && rng_contains(#[trigger] a0[j], p);
        if j < hi {
            assert(rng_contains(a1[j], p));
        } else if j >= lo {
            assert(rng_contains(a1[j - shift], p));
        } else {
            assert(rng_contains(a1[hi], p));
        }
    }
    assert forall|p: int| qs <= p <= qe implies #[trigger] covers(a1, p) by {
        assert(rng_contains(a1[hi], p));
    }
}

/// Purge half of the unpin merge: inside the merged entry the flag is the
/// disjunction of the absorbed flags; outside nothing changed.
#[verifier::rlimit(100)]
proof fn lemma_unpin_merge_purged(
    a0: Seq<Range>,
    hi: int,
    lo: int,
    qs: int,
    qe: int,
    merged: Range,
)
    requires
        unpin_ctx(a0, hi, lo, qs, qe, merged),
    ensures
        forall|p: int|
            #[trigger] purged_at(splice_seq(a0, hi, lo, merged), p) == (
            if same_entry(splice_seq(a0, hi, lo, merged), p, qs) {
                any_purged_touching(a0, qs, qe)
            } else {
                purged_at(a0, p)
            }),
{
    let a1 = splice_seq(a0, hi, lo, merged);
    let shift = lo - hi - 1;
    lemma_disjoint_pairs(a0);
    lemma_unpin_merge_wf(a0, hi, lo, qs, qe, merged);
    assert(forall|i: int| 0 <= i < hi ==> #[trigger] a1[i] == a0[i]);
    assert(a1[hi] == merged);
    assert(forall|j: int| hi < j < a1.len() ==> #[trigger] a1[j] == a0[j + shift]);

    assert(rng_contains(a1[hi], qs));
    assert(any_purged_touching(a0, qs, qe) == merged.purged) by {
        if merged.purged {
            let k = choose|k: int| hi <= k < lo && (#[trigger] a0[k]).purged;
            assert(rng_touches(a0[k], qs, qe));
        }
        if any_purged_touching(a0, qs, qe) {
            let k = choose|k: int|
                0 <= k < a0.len() && rng_touches(#[trigger] a0[k], qs, qe) && a0[k].purged;
        }
    }
    assert forall|p: int| true implies #[trigger] purged_at(a1, p) == (
        if same_entry(a1, p, qs) {
            any_purged_touching(a0, qs, qe)
        } else {
            purged_at(a0, p)
        }) by {
        if same_entry(a1, p, qs) {
            let j = choose|j: int|
                0 <= j < a1.len() && rng_contains(#[trigger] a1[j], p)
                    && rng_contains(a1[j], qs);
            lemma_unique_cover(a1, qs, j, hi);
            assert(rng_contains(merged, p));
            if purged_at(a1, p) {
                let j2 = choose|j2: int|
                    0 <= j2 < a1.len() && rng_contains(#[trigger] a1[j2], p) && a1[j2].purged;
                lemma_unique_cover(a1, p, j2, hi);
            }
            if merged.purged {
                assert(rng_contains(a1[hi], p) && a1[hi].purged);
            }
        } else {
            // p is not in the merged entry.
            assert(!rng_contains(merged, p)) by {
                if rng_contains(merged, p) {
                    assert(rng_contains(a1[hi], p) && rng_contains(a1[hi], qs));
                }
            }
            if purged_at(a1, p) {
                let j = choose|j: int|
                    0 <= j < a1.len() && rng_contains(#[trigger] a1[j], p) && a1[j].purged;
                assert(j != hi);
                if j < hi {
                    assert(rng_contains(a0[j], p) && a0[j].purged);
                } else {
                    assert(rng_contains(a0[j + shift], p) && a0[j + shift].purged);
                }
            }
            if purged_at(a0, p) {
                let j = choose|j: int|
                    0 <= j < a0.len() && rng_contains(#[trigger] a0[j], p) && a0[j].purged;
                if j < hi {
                    assert(rng_contains(a1[j], p) && a1[j].purged);
                } else if j >= lo {
                    assert(rng_contains(a1[j - shift], p) && a1[j - shift].purged);
                } else {
                    assert(rng_contains(merged, p));
                    assert(false);
                }
            }
        }
    }
}

/// Entries of a well-formed area that a request `[qs, qe]` touches form
/// one contiguous span, and merging them yields a well-formed area with
/// exactly the request's pages added.
proof fn lemma_unpin_merge(
    a0: Seq<Range>,
    hi: int,
    lo: int,
    qs: int,
    qe: int,
    merged: Range,
)
    requires
        unpin_ctx(a0, hi, lo, qs, qe, merged),
    ensures
        area_wf(splice_seq(a0, hi, lo, merged)),
        forall|p: int|
            #[trigger] covers(splice_seq(a0, hi, lo, merged), p)
                <==> (covers(a0, p) || qs <= p <= qe),
        forall|p: int|
            #[trigger] purged_at(splice_seq(a0, hi, lo, merged), p) == (
            if same_entry(splice_seq(a0, hi, lo, merged), p, qs) {
                any_purged_touching(a0, qs, qe)
            } else {
                purged_at(a0, p)
            }),
        forall|i: int|
            0 <= i < a0.len() ==> (rng_touches(#[trigger] a0[i], qs, qe) <==> hi <= i < lo),
        forall|i: int|
            0 <= i < a0.len()
                ==> ((merged.pgstart <= (#[trigger] a0[i]).pgstart <= merged.pgend)
                    <==> hi <= i < lo),
        rng_wf(merged),
        forall|k: int| hi <= k < lo ==> (#[trigger] a0[k]).pgstart <= qe + 1,
{
    lemma_unpin_merge_wf(a0, hi, lo, qs, qe, merged);
    lemma_unpin_merge_covers(a0, hi, lo, qs, qe, merged);
    lemma_unpin_merge_purged(a0, hi, lo, qs, qe, merged);
}

/// The pages the absorbed queue entries give back cover all of the merged
/// range except the request itself, so the queue total stays in bounds.
#[verifier::rlimit(100)]
proof fn lemma_unpin_count_headroom(
    t0: Tracker,
    a0: Seq<Range>,
    q0: Seq<LruEntry>,
    obj: usize,
    hi: int,
    lo: int,
    qs: int,
    qe: int,
    merged: Range,
)
    requires
        t0.wf(),
        (obj as int) < t0.n_objects(),
        a0 == t0.area_seq(obj as int),
        q0 == t0.lru.entries@,
        0 <= hi <= lo <= a0.len(),
        0 <= qs <= qe <= MAX_PAGE,
        rng_wf(merged),
        merged.pgstart <= qs && qe <= merged.pgend,
        !merged.purged,
        forall|k: int|
            hi <= k < lo ==> merged.pgstart <= (#[trigger] a0[k]).pgstart
                && a0[k].pgend <= merged.pgend,
        forall|k: int| hi <= k < lo ==> !(#[trigger] a0[k]).purged,
        merged.pgstart == qs || (merged.pgstart < qs && exists|k: int|
            hi <= k < lo && (#[trigger] a0[k]).pgstart == merged.pgstart),
        merged.pgend == qe || (merged.pgend > qe && exists|k: int|
            hi <= k < lo && (#[trigger] a0[k]).pgend == merged.pgend),
        forall|i: int| hi <= i < lo ==> (#[trigger] a0[i]).pgend + 1 >= qs,
        hi < lo ==> a0[hi].pgstart <= qe + 1,
    ensures
        lru_sum(without_span(q0, obj, merged.pgstart as int, merged.pgend as int))
            + rng_size(merged) <= lru_sum(q0) + (qe - qs + 1),
{
    let ms = merged.pgstart as int;
    let me = merged.pgend as int;
    lemma_without_span_props(q0, obj, ms, me);
    lemma_disjoint_pairs(a0);
    if hi == lo {
        // Nothing was absorbed: the merged range is the request itself.
        assert(merged.pgstart == qs && merged.pgend == qe);
    } else {
        // The first and last absorbed ranges are not purged, so the queue
        // holds entries with exactly their bounds, and both lie in the
        // removed span.
        let top = a0[hi];
        let bot = a0[lo - 1];
        assert(lru_has(q0, obj, top.pgstart));
        assert(lru_has(q0, obj, bot.pgstart));
        let k1 = choose|k: int|
            0 <= k < q0.len() && (#[trigger] q0[k]).obj == obj && q0[k].pgstart == top.pgstart;
        let k2 = choose|k: int|
            0 <= k < q0.len() && (#[trigger] q0[k]).obj == obj && q0[k].pgstart == bot.pgstart;
        // A queue entry's bounds match the area range with its start.
        assert(q0[k1].pgend == top.pgend) by {
            let i = choose|i: int|
                0 <= i < a0.len() && (#[trigger] a0[i]).pgstart == q0[k1].pgstart
                    && a0[i].pgend == q0[k1].pgend && !a0[i].purged;
            if i != hi {
                if i < hi {
                    lemma_wf_separated(a0, i, hi);
                } else {
                    lemma_wf_separated(a0, hi, i);
                }
                assert(rng_wf(a0[i]) && rng_wf(top));
                assert(false);
            }
        }
        assert(q0[k2].pgend == bot.pgend) by {
            let i = choose|i: int|
                0 <= i < a0.len() && (#[trigger] a0[i]).pgstart == q0[k2].pgstart
                    && a0[i].pgend == q0[k2].pgend && !a0[i].purged;
            if i != lo - 1 {
                if i < lo - 1 {
                    lemma_wf_separated(a0, i, lo - 1);
                } else {
                    lemma_wf_separated(a0, lo - 1, i);
                }
                assert(rng_wf(a0[i]) && rng_wf(bot));
                assert(false);
            }
        }
        assert(!outside_span(q0[k1], obj, ms, me));
        assert(!outside_span(q0[k2], obj, ms, me));
        // The merged range exceeds the request by at most what the first
        // and last absorbed ranges measure: its end is the request's or the
        // first's, its start is the request's or the last's.
        assert(rng_wf(top) && rng_wf(bot));
        assert(me == qe || me == top.pgend) by {
            if me > qe {
                let k = choose|k: int| hi <= k < lo && (#[trigger] a0[k]).pgend == me;
                if k > hi {
                    lemma_wf_separated(a0, hi, k);
                    assert(rng_wf(a0[k]));
                    assert(a0[k].pgend < top.pgend);
                    assert(false);
                }
            }
        }
        assert(ms == qs || ms == bot.pgstart) by {
            if ms < qs {
                let k = choose|k: int| hi <= k < lo && (#[trigger] a0[k]).pgstart == ms;
                if k < lo - 1 {
                    lemma_wf_separated(a0, k, lo - 1);
                    assert(rng_wf(a0[k]));
                    assert(a0[k].pgstart > bot.pgstart);
                    assert(false);
                }
            }
        }
        assert(top.pgstart <= qe + 1);
        assert(bot.pgend + 1 >= qs);
        if hi == lo - 1 {
            assert(k1 == k2);
            lemma_without_span_sum_drop(q0, obj, ms, me, k1, k1);
            assert(rng_size(merged) <= (qe - qs + 1) + entry_size(q0[k1]));
        } else {
            assert(top.pgstart != bot.pgstart) by {
                lemma_wf_separated(a0, hi, lo - 1);
                assert(rng_wf(bot));
            }
            assert(k1 != k2);
            if k1 < k2 {
                lemma_without_span_sum_drop(q0, obj, ms, me, k1, k2);
            } else {
                lemma_without_span_sum_drop(q0, obj, ms, me, k2, k1);
            }
            assert(me - qe <= entry_size(q0[k1]));
            assert(qs - ms <= entry_size(q0[k2]));
            assert(rng_size(merged)
                <= (qe - qs + 1) + entry_size(q0[k1]) + entry_size(q0[k2]));
        }
    }
}

/// After a merge, the queue and the areas satisfy the tracker invariant
/// again.
#[verifier::rlimit(100)]
proof fn lemma_unpin_restore(
    t0: Tracker,
    t1: Tracker,
    obj: usize,
    hi: int,
    lo: int,
    qs: int,
    qe: int,
    merged: Range,
)
    requires
        t0.wf(),
        (obj as int) < t0.n_objects(),
        0 <= hi <= lo <= t0.area_seq(obj as int).len(),
        0 <= qs <= qe <= MAX_PAGE,
        rng_wf(merged),
        merged.pgstart <= qs && qe <= merged.pgend,
        merged.purged == (exists|k: int|
            hi <= k < lo && (#[trigger] t0.area_seq(obj as int)[k]).purged),
        // the area after the splice
        t1.n_objects() == t0.n_objects(),
        forall|o: int|
            0 <= o < t0.n_objects() && o != obj
                ==> (#[trigger] t1.objects@[o])@ == t0.objects@[o]@,
        t1.area_seq(obj as int) == splice_seq(t0.area_seq(obj as int), hi, lo, merged),
        area_wf(t1.area_seq(obj as int)),
        // which old entries lie in the removed span
        forall|i: int|
            0 <= i < t0.area_seq(obj as int).len()
                ==> ((merged.pgstart <= (#[trigger] t0.area_seq(obj as int)[i]).pgstart
                    <= merged.pgend) <==> hi <= i < lo),
        // the queue after the merge
        t1.lru.wf(),
        t1.lru.entries@ == (if merged.purged {
            without_span(t0.lru.entries@, obj, merged.pgstart as int, merged.pgend as int)
        } else {
            seq![LruEntry { obj, pgstart: merged.pgstart, pgend: merged.pgend }]
                + without_span(
                t0.lru.entries@,
                obj,
                merged.pgstart as int,
                merged.pgend as int,
            )
        }),
    ensures
        t1.wf(),
{
    let a0 = t0.area_seq(obj as int);
    let a1 = t1.area_seq(obj as int);
    let q0 = t0.lru.entries@;
    let q1 = t1.lru.entries@;
    let ms = merged.pgstart as int;
    let me = merged.pgend as int;
    let w = without_span(q0, obj, ms, me);
    let shift = lo - hi - 1;
    let fr = LruEntry { obj, pgstart: merged.pgstart, pgend: merged.pgend };
    lemma_without_span_props(q0, obj, ms, me);
    assert(forall|i: int| 0 <= i < hi ==> #[trigger] a1[i] == a0[i]);
    assert(a1[hi] == merged);
    assert(forall|j: int| hi < j < a1.len() ==> #[trigger] a1[j] == a0[j + shift]);

    // Every queue entry still names a live non-purged range.
    assert forall|k: int| 0 <= k < q1.len() implies {
        let e = #[trigger] q1[k];
        &&& (e.obj as int) < t1.n_objects()
        &&& entry_matches(t1.area_seq(e.obj as int), e)
    } by {
        let e = q1[k];
        if !merged.purged && k == 0 {
            assert(e == fr);
            assert(a1[hi].pgstart == e.pgstart && a1[hi].pgend == e.pgend
                && !a1[hi].purged);
        } else {
            let kw = if merged.purged { k } else { k - 1 };
            assert(e == w[kw]);
            let k0 = choose|k0: int| 0 <= k0 < q0.len() && q0[k0] == w[kw];
            assert(lru_has(w, e.obj, e.pgstart)) by {
                assert(0 <= kw < w.len() && w[kw].obj == e.obj && w[kw].pgstart == e.pgstart);
            }
            assert(lru_has(q0, e.obj, e.pgstart) && !(e.obj == obj && ms <= e.pgstart <= me));
            if e.obj == obj {
                let i = choose|i: int|
                    0 <= i < a0.len() && (#[trigger] a0[i]).pgstart == e.pgstart
                        && a0[i].pgend == e.pgend && !a0[i].purged;
                assert(!(hi <= i < lo));
                if i < hi {
                    assert(a1[i] == a0[i]);
                    assert(entry_matches(a1, e));
                } else {
                    assert(a1[i - shift] == a0[i]);
                    assert(entry_matches(a1, e));
                }
            } else {
                assert(t1.objects@[e.obj as int]@ == t0.objects@[e.obj as int]@);
            }
        }
    }

    // Every non-purged range still has its queue entry.
    assert forall|o: usize, i: int|
        (o as int) < t1.n_objects() && 0 <= i < t1.area_seq(o as int).len()
            && !(#[trigger] t1.area_seq(o as int)[i]).purged
        implies lru_has(t1.lru.entries@, o, t1.area_seq(o as int)[i].pgstart) by {
        let s1 = t1.area_seq(o as int);
        let r = s1[i];
        if o == obj {
            if i == hi {
                assert(r == merged && !merged.purged);
                assert(q1[0] == fr);
                assert(lru_has(q1, obj, merged.pgstart));
            } else {
                let i0 = if i < hi { i } else { i + shift };
                assert(r == a0[i0] && !(hi <= i0 < lo));
                assert(lru_has(q0, obj, r.pgstart));
                assert(!(ms <= r.pgstart <= me));
                assert(lru_has(w, obj, r.pgstart));
                if merged.purged {
                } else {
                    let kw = choose|kw: int|
                        0 <= kw < w.len() && (#[trigger] w[kw]).obj == obj
                            && w[kw].pgstart == r.pgstart;
                    assert(q1[kw + 1] == w[kw]);
                    assert(lru_has(q1, obj, r.pgstart));
                }
            }
        } else {
            assert(t1.area_seq(o as int) == t0.area_seq(o as int));
            assert(lru_has(q0, o, r.pgstart));
            assert(lru_has(w, o, r.pgstart));
            if merged.purged {
            } else {
                let kw = choose|kw: int|
                    0 <= kw < w.len() && (#[trigger] w[kw]).obj == o
                        && w[kw].pgstart == r.pgstart;
                assert(q1[kw + 1] == w[kw]);
                assert(lru_has(q1, o, r.pgstart));
            }
        }
    }

    assert forall|o: int| 0 <= o < t1.n_objects()
        implies area_wf((#[trigger] t1.objects@[o])@) by {
        if o != obj {
            assert(t1.objects@[o]@ == t0.objects@[o]@);
        }
    }
}

/// When a single old entry already contains the whole request, the unpin
/// postconditions hold of the unchanged area.
proof fn lemma_unpin_noop(a0: Seq<Range>, w: int, qs: int, qe: int)
    requires
        area_wf(a0),
        0 <= w < a0.len(),
        0 <= qs <= qe,
        a0[w].pgstart <= qs,
        qe <= a0[w].pgend,
    ensures
        forall|p: int| qs <= p <= qe ==> covers(a0, p),
        forall|p: int|
            #[trigger] purged_at(a0, p) == (
            if same_entry(a0, p, qs) {
                any_purged_touching(a0, qs, qe)
            } else {
                purged_at(a0, p)
            }),
{
    assert forall|p: int| qs <= p <= qe implies covers(a0, p) by {
        assert(rng_contains(a0[w], p));
    }
    // The only entry touching the request is the containing one.
    assert forall|k: int|
        0 <= k < a0.len() && rng_touches(#[trigger] a0[k], qs, qe) implies k == w by {
        if k < w {
            lemma_wf_separated(a0, k, w);
            assert(rng_wf(a0[k]));
        } else if k > w {
            lemma_wf_separated(a0, w, k);
            assert(rng_wf(a0[k]));
        }
    }
    assert(rng_touches(a0[w], qs, qe));
    assert(any_purged_touching(a0, qs, qe) == a0[w].purged) by {
        if any_purged_touching(a0, qs, qe) {
            let k = choose|k: int|
                0 <= k < a0.len() && rng_touches(#[trigger] a0[k], qs, qe) && a0[k].purged;
        }
    }
    assert forall|p: int| same_entry(a0, p, qs)
        implies #[trigger] purged_at(a0, p) == a0[w].purged by {
        let j = choose|j: int|
            0 <= j < a0.len() && rng_contains(#[trigger] a0[j], p) && rng_contains(a0[j], qs);
        lemma_unique_cover(a0, qs, j, w);
        if purged_at(a0, p) {
            let j2 = choose|j2: int|
                0 <= j2 < a0.len() && rng_contains(#[trigger] a0[j2], p) && a0[j2].purged;
            lemma_unique_cover(a0, p, j2, w);
        }
    }
}

} // verus!
