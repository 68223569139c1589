//! The memory-pressure count/scan protocol of the reclaim engine.
//!
//! The host's memory subsystem asks two questions under pressure: how
//! much could be freed (count), and free up to so much now (scan). Both
//! answers travel as plain words with two reserved sentinels; the helpers
//! here clamp real values away from the sentinels. The embedding layer
//! registers the callbacks, attempts the shared lock without blocking —
//! answering stop on failure, since blocking could deadlock against an
//! allocation that itself triggered reclaim — and hands the tracker state
//! in here when it got it.

use vstd::prelude::*;
use crate::lru::{lru_has, lru_sum};
use crate::tracker::{evict_count, Discard, Tracker};
use crate::area::covers;

verus! {

/// Sentinel answer of a scan: stop, do not retry reclaim for this pass.
pub const SHRINK_STOP: usize = usize::MAX;

/// Sentinel answer of a count: nothing to reclaim, skip the scan.
pub const SHRINK_EMPTY: usize = usize::MAX - 1;

/// Largest real count the protocol carries: the host may double a count
/// without overflow.
pub const MAX_COUNT: usize = usize::MAX / 2;

/// Largest real scan result; anything above would collide with the stop
/// sentinel.
pub const MAX_SCANNED: usize = usize::MAX - 1;

/// The number of seeks it costs to recreate a reclaimed object, by the
/// host protocol's default scale.
pub const DEFAULT_SEEKS: u32 = 2;

/// Answer of the count half: how many pages a scan could free.
#[derive(Clone, Copy, Debug, PartialEq, Eq, Structural)]
pub struct CountObjects {
    inner: usize,
}

impl CountObjects {
    /// The raw protocol word.
    pub closed spec fn spec_value(&self) -> usize {
        self.inner
    }

    /// The raw protocol word.
    pub fn value(&self) -> (r: usize)
        ensures
            r == self.spec_value(),
    {
        self.inner
    }

    /// The empty sentinel: nothing reclaimable here.
    pub fn empty() -> (r: CountObjects)
        ensures
            r.spec_value() == SHRINK_EMPTY,
    {
        CountObjects { inner: SHRINK_EMPTY }
    }

    /// A real count, clamped below the sentinels.
    pub fn new(count: usize) -> (r: CountObjects)
        ensures
            r.spec_value() == (if count > MAX_COUNT {
                MAX_COUNT
            } else {
                count
            }),
    {
        if count > MAX_COUNT {
            CountObjects { inner: MAX_COUNT }
        } else {
            CountObjects { inner: count }
        }
    }
}

/// Answer of the scan half: how many pages were freed, or stop.
#[derive(Clone, Copy, Debug, PartialEq, Eq, Structural)]
pub struct ScanObjects {
    inner: usize,
}

impl ScanObjects {
    /// The raw protocol word.
    pub closed spec fn spec_value(&self) -> usize {
        self.inner
    }

    /// The raw protocol word.
    pub fn value(&self) -> (r: usize)
        ensures
            r == self.spec_value(),
    {
        self.inner
    }

    /// The stop sentinel: abandon reclaim for this pass.
    pub fn stop() -> (r: ScanObjects)
        ensures
            r.spec_value() == SHRINK_STOP,
    {
        ScanObjects { inner: SHRINK_STOP }
    }

    /// A real number of freed pages, clamped below the stop sentinel.
    pub fn from_count(count: usize) -> (r: ScanObjects)
        ensures
            r.spec_value() == (if count > MAX_SCANNED {
                MAX_SCANNED
            } else {
                count
            }),
    {
        if count > MAX_SCANNED {
            ScanObjects { inner: MAX_SCANNED }
        } else {
            ScanObjects { inner: count }
        }
    }
}

/// Whether the reclaim engine is registered with the host's pressure
/// signal. While disabled no pages are evicted, but unpinned ranges and
/// their accounting accumulate on, so re-enabling makes the whole
/// backlog reclaimable at once. The registration call itself belongs to
/// the embedding layer.
pub struct ReclaimToggle {
    pub enabled: bool,
}

impl ReclaimToggle {
    /// The engine starts registered.
    pub fn new() -> (r: ReclaimToggle)
        ensures
            r.enabled,
    {
        ReclaimToggle { enabled: true }
    }

    /// Switch the engine's registration on or off.
    pub fn set_reclaim_enabled(&mut self, enabled: bool)
        ensures
            final(self).enabled == enabled,
    {
        self.enabled = enabled;
    }

    /// Whether the engine is currently registered.
    pub fn get_reclaim_enabled(&self) -> (r: bool)
        ensures
            r == self.enabled,
    {
        self.enabled
    }
}

/// Count half of the pressure protocol: the running reclaimable total, or
/// the empty sentinel when there is none. The total is a plain counter
/// read; callers that skip the lock must tolerate a stale value.
pub fn count_objects(t: &Tracker) -> (r: CountObjects)
    ensures
        t.lru.count == 0 ==> r.spec_value() == SHRINK_EMPTY,
        t.lru.count > 0 ==> r.spec_value() == (if t.lru.count > MAX_COUNT {
            MAX_COUNT
        } else {
            t.lru.count
        }),
{
    let count = t.lru_count();
    if count == 0 {
        CountObjects::empty()
    } else {
        CountObjects::new(count)
    }
}

/// Scan half of the pressure protocol: free up to `nr_to_scan` pages from
/// the back of the queue, or answer stop when the execution context
/// forbids filesystem work. `stop_early` carries the cooperative signal
/// that foreground pin or unpin callers are waiting; it bounds the pass
/// at one eviction. The discard requests for the storage layer come back
/// alongside the protocol answer.
pub fn scan_objects(t: &mut Tracker, nr_to_scan: usize, fs_allowed: bool, stop_early: bool)
    -> (r: (ScanObjects, Vec<Discard>))
    requires
        old(t).wf(),
    ensures
        final(t).wf(),
        final(t).n_objects() == old(t).n_objects(),
        !fs_allowed ==> {
            &&& r.0.spec_value() == SHRINK_STOP
            &&& r.1@.len() == 0
            &&& final(t).lru.entries@ == old(t).lru.entries@
            &&& final(t).lru.count == old(t).lru.count
            &&& final(t).objects@ == old(t).objects@
        },
        fs_allowed ==> {
            &&& r.1@.len() == evict_count(old(t).lru.entries@, nr_to_scan as int, stop_early)
            &&& final(t).lru.entries@ == old(t).lru.entries@.take(
                old(t).lru.entries@.len() - r.1@.len(),
            )
            &&& (forall|j: int|
                0 <= j < r.1@.len() ==> #[trigger] r.1@[j] == crate::tracker::discard_of(
                    old(t).lru.entries@[old(t).lru.entries@.len() - 1 - j],
                ))
            &&& final(t).lru.count == old(t).lru.count - lru_sum(
                old(t).lru.entries@.skip(old(t).lru.entries@.len() - r.1@.len()),
            )
            &&& r.0.spec_value() == (if lru_sum(
                old(t).lru.entries@.skip(old(t).lru.entries@.len() - r.1@.len()),
            ) > MAX_SCANNED {
                MAX_SCANNED as int
            } else {
                lru_sum(old(t).lru.entries@.skip(old(t).lru.entries@.len() - r.1@.len()))
            })
            &&& (forall|o: usize, i: int|
                (o as int) < old(t).n_objects() && 0 <= i < old(t).area_seq(o as int).len()
                    ==> {
                    let r0 = #[trigger] old(t).area_seq(o as int)[i];
                    &&& final(t).area_seq(o as int)[i].pgstart == r0.pgstart
                    &&& final(t).area_seq(o as int)[i].pgend == r0.pgend
                    &&& final(t).area_seq(o as int)[i].purged == (r0.purged || lru_has(
                        old(t).lru.entries@.skip(old(t).lru.entries@.len() - r.1@.len()),
                        o,
                        r0.pgstart,
                    ))
                })
            &&& (forall|o: usize, p: int|
                (o as int) < old(t).n_objects()
                    ==> #[trigger] covers(final(t).area_seq(o as int), p) == covers(
                    old(t).area_seq(o as int),
                    p,
                ))
        },
{
    if !fs_allowed {
        return (ScanObjects::stop(), Vec::new());
    }
    let (freed, discards) = t.free_lru(nr_to_scan, stop_early);
    (ScanObjects::from_count(freed), discards)
}

} // verus!
