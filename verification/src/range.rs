//! A single contiguous page interval with its purge status, and the
//! interval algebra the tracker is built on.

use vstd::prelude::*;
use crate::pages::MAX_PAGE;

verus! {

/// One contiguous, inclusive page interval `[pgstart, pgend]` belonging to
/// one memory object. `purged` is set once the pages behind it have been
/// discarded by the reclaim engine; the entry then only continues to exist
/// so later queries still see the hole.
#[derive(Clone, Copy, Debug, PartialEq, Eq, Structural)]
pub struct Range {
    pub pgstart: usize,
    pub pgend: usize,
    pub purged: bool,
}

/// A well-formed range is non-empty and stays below the page-index cap.
pub open spec fn rng_wf(r: Range) -> bool {
    r.pgstart <= r.pgend <= MAX_PAGE
}

/// Number of pages in `r`.
pub open spec fn rng_size(r: Range) -> int {
    r.pgend - r.pgstart + 1
}

/// Whether page `p` lies inside `r`.
pub open spec fn rng_contains(r: Range, p: int) -> bool {
    r.pgstart <= p <= r.pgend
}

/// Whether `r` intersects the query interval `[qs, qe]`.
pub open spec fn rng_overlaps(r: Range, qs: int, qe: int) -> bool {
    r.pgstart <= qe && qs <= r.pgend
}

/// Whether `r` intersects or touches the query interval `[qs, qe]`:
/// the two could be merged into one contiguous interval.
pub open spec fn rng_touches(r: Range, qs: int, qe: int) -> bool {
    r.pgstart <= qe + 1 && qs <= r.pgend + 1
}

impl Range {
    /// Number of pages in this range.
    pub fn size(&self) -> (r: usize)
        requires
            rng_wf(*self),
        ensures
            r == rng_size(*self),
    {
        self.pgend - self.pgstart + 1
    }

    /// Whether this whole range lies strictly below `page`.
    pub fn is_before_page(&self, page: usize) -> (r: bool)
        ensures
            r == (self.pgend < page),
    {
        self.pgend < page
    }

    /// Interval membership test for a single page.
    pub fn contains_page(&self, page: usize) -> (r: bool)
        ensures
            r == rng_contains(*self, page as int),
    {
        self.pgstart <= page && self.pgend >= page
    }

    /// Whether this range contains all of `[pgstart, pgend]`.
    pub fn is_superset_of_range(&self, pgstart: usize, pgend: usize) -> (r: bool)
        ensures
            r == (self.pgstart <= pgstart && pgend <= self.pgend),
    {
        self.pgstart <= pgstart && self.pgend >= pgend
    }

    /// Whether this range lies entirely inside `[pgstart, pgend]`.
    pub fn is_subset_of_range(&self, pgstart: usize, pgend: usize) -> (r: bool)
        ensures
            r == (pgstart <= self.pgstart && self.pgend <= pgend),
    {
        self.pgstart >= pgstart && self.pgend <= pgend
    }

    /// Whether this range intersects `[pgstart, pgend]`.
    pub fn overlaps_with_range(&self, pgstart: usize, pgend: usize) -> (r: bool)
        requires
            rng_wf(*self),
            pgstart <= pgend,
        ensures
            r == rng_overlaps(*self, pgstart as int, pgend as int),
    {
        self.contains_page(pgstart) || self.contains_page(pgend)
            || self.is_subset_of_range(pgstart, pgend)
    }

    /// Whether this range intersects or touches `[pgstart, pgend]`, so that
    /// an unpin of `[pgstart, pgend]` must absorb it.
    pub fn touches_range(&self, pgstart: usize, pgend: usize) -> (r: bool)
        requires
            rng_wf(*self),
            pgstart <= pgend,
            pgend < usize::MAX,
        ensures
            r == rng_touches(*self, pgstart as int, pgend as int),
    {
        self.pgstart <= pgend + 1 && self.pgend + 1 >= pgstart
    }
}

} // verus!
