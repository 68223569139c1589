//! Page size constants and alignment arithmetic.
//!
//! All ranges handled by the tracker are expressed in page-index units;
//! the device layer converts byte offsets with a fixed page size and must
//! reject requests that are not page-aligned.

use vstd::prelude::*;

verus! {

/// Number of bytes in one page.
pub const PAGE_SIZE: usize = 4096;

/// Highest page index a tracked range may reach: `(MAX_PAGE + 1) * PAGE_SIZE`
/// still fits in `usize`, so byte offsets of evicted ranges never overflow.
pub const MAX_PAGE: usize = usize::MAX / PAGE_SIZE - 1;

/// Largest object size whose page-aligned form fits in `usize`.
pub const MAX_ALIGNABLE: usize = usize::MAX - PAGE_SIZE + 1;

/// `addr` rounded up to the next page boundary.
pub open spec fn spec_page_align(addr: int) -> int {
    ((addr + (PAGE_SIZE - 1)) / (PAGE_SIZE as int)) * (PAGE_SIZE as int)
}

/// `addr` rounded down to a page boundary.
pub open spec fn spec_page_align_down(addr: int) -> int {
    (addr / (PAGE_SIZE as int)) * (PAGE_SIZE as int)
}

/// Whether `addr` is a whole number of pages.
pub open spec fn spec_page_aligned(addr: int) -> bool {
    addr % (PAGE_SIZE as int) == 0
}

/// Aligns the given address up to the nearest page boundary.
pub fn page_align(addr: usize) -> (r: usize)
    requires
        addr <= MAX_ALIGNABLE,
    ensures
        r == spec_page_align(addr as int),
        r <= usize::MAX,
        addr <= r < addr + PAGE_SIZE,
        spec_page_aligned(r as int),
{
    proof {
        lemma_page_align_bounds(addr as int);
    }
    ((addr + (PAGE_SIZE - 1)) / PAGE_SIZE) * PAGE_SIZE
}

/// Aligns the given address down to the nearest page boundary.
pub fn page_align_down(addr: usize) -> (r: usize)
    ensures
        r == spec_page_align_down(addr as int),
        r <= addr,
        spec_page_aligned(r as int),
{
    proof {
        vstd::arithmetic::div_mod::lemma_fundamental_div_mod(addr as int, PAGE_SIZE as int);
        vstd::arithmetic::div_mod::lemma_mod_bound(addr as int, PAGE_SIZE as int);
        lemma_mul_mod_zero(addr as int / (PAGE_SIZE as int));
    }
    (addr / PAGE_SIZE) * PAGE_SIZE
}

/// Whether the given address lies on a page boundary.
pub fn page_aligned(addr: usize) -> (r: bool)
    ensures
        r == spec_page_aligned(addr as int),
{
    addr % PAGE_SIZE == 0
}

/// A multiple of the page size is page-aligned.
proof fn lemma_mul_mod_zero(q: int)
    ensures
        (q * (PAGE_SIZE as int)) % (PAGE_SIZE as int) == 0,
{
    vstd::arithmetic::div_mod::lemma_mod_multiples_basic(q, PAGE_SIZE as int);
}

/// Rounding up stays within one page of the argument and lands on a boundary.
pub proof fn lemma_page_align_bounds(addr: int)
    requires
        addr >= 0,
    ensures
        addr <= spec_page_align(addr) < addr + PAGE_SIZE,
        spec_page_aligned(spec_page_align(addr)),
{
    let p = PAGE_SIZE as int;
    vstd::arithmetic::div_mod::lemma_fundamental_div_mod(addr + p - 1, p);
    vstd::arithmetic::div_mod::lemma_mod_bound(addr + p - 1, p);
    lemma_mul_mod_zero((addr + p - 1) / p);
}

} // verus!
