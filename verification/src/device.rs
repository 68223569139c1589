//! The device-facing surface of the tracker: per-open-file state and the
//! request validation the ioctl layer performs before it touches an area.
//!
//! The embedding layer owns the file descriptors and the user-memory
//! copies; it hands the plain values in here. Everything that decides —
//! argument checking, page conversion, protection-mask policy, names,
//! the administrative purge — is verified here.

use vstd::prelude::*;
use crate::area::{any_purged_touching, covers, purged_at, same_entry};
use crate::lru::lru_has;
use crate::pages::{
    lemma_page_align_bounds, page_align, spec_page_align, spec_page_aligned, MAX_ALIGNABLE,
    MAX_PAGE, PAGE_SIZE,
};
use crate::task::{has_cap_sys_admin, Task, CAP_SYS_ADMIN};
use crate::tracker::{Discard, Tracker};

verus! {

/// Protection bit: the mapping may be read.
pub const PROT_READ: usize = 1;

/// Protection bit: the mapping may be written.
pub const PROT_WRITE: usize = 2;

/// Protection bit: the mapping may be executed.
pub const PROT_EXEC: usize = 4;

/// All protection bits an object can carry: read, write and exec.
pub const PROT_MASK: usize = 7;

/// Longest name an object can be given, terminator included.
pub const ASHMEM_NAME_LEN: usize = 256;

/// The errors the tracker surface reports to its callers.
#[derive(Clone, Copy, Debug, PartialEq, Eq, Structural)]
pub enum AshmemError {
    /// A request was malformed: unaligned, out of bounds, or out of order.
    InvalidArgument,
    /// The caller lacks the privilege the operation demands.
    PermissionDenied,
    /// The object has no backing file yet where one is needed.
    BadFileDescriptor,
    /// A user buffer could not take or give the bytes asked of it.
    BadAddress,
}

/// The three pin-family commands of the surface.
#[derive(Clone, Copy, Debug, PartialEq, Eq, Structural)]
pub enum PinCommand {
    Pin,
    Unpin,
    GetPinStatus,
}

/// Whether a pin found that some of its pages had been discarded.
#[derive(Clone, Copy, Debug, PartialEq, Eq, Structural)]
pub enum WasPurged {
    Yes,
    No,
}

/// Answer of a pin-status query.
#[derive(Clone, Copy, Debug, PartialEq, Eq, Structural)]
pub enum PinStatus {
    Pinned,
    Unpinned,
}

/// What a pin-family request produced.
#[derive(Clone, Copy, Debug, PartialEq, Eq, Structural)]
pub enum PinUnpinOutcome {
    Pinned(WasPurged),
    Unpinned,
    Status(PinStatus),
}

/// Global knobs of the surface: whether attempts to drop the read or
/// exec protection bits are ignored.
#[derive(Clone, Copy, Debug, PartialEq, Eq, Structural)]
pub struct Settings {
    pub ignore_unset_prot_read: bool,
    pub ignore_unset_prot_exec: bool,
}

/// What a mapping request should do, decided from the object's state.
#[derive(Clone, Copy, Debug, PartialEq, Eq, Structural)]
pub struct MmapPlan {
    pub clear_maywrite: bool,
    pub clear_mayexec: bool,
    pub clear_mayread: bool,
    pub needs_backing_file: bool,
    pub use_zero_setup: bool,
}

/// Position of the first zero byte, or the length when there is none.
pub open spec fn first_nul(s: Seq<u8>) -> int
    decreases s.len(),
{
    if s.len() == 0 {
        0
    } else if s.first() == 0 {
        0
    } else {
        1 + first_nul(s.drop_first())
    }
}

/// `first_nul` is the least position holding zero.
pub proof fn lemma_first_nul(s: Seq<u8>)
    ensures
        0 <= first_nul(s) <= s.len(),
        first_nul(s) < s.len() ==> s[first_nul(s)] == 0,
        forall|k: int| 0 <= k < first_nul(s) ==> s[k] != 0,
    decreases s.len(),
{
    if s.len() > 0 && s.first() != 0 {
        lemma_first_nul(s.drop_first());
        assert(forall|k: int| 0 <= k < s.drop_first().len()
            ==> #[trigger] s.drop_first()[k] == s[k + 1]);
        assert forall|k: int| 0 <= k < first_nul(s) implies s[k] != 0 by {
            if k > 0 {
                assert(s.drop_first()[k - 1] != 0);
            }
        }
    }
}

/// The bytes of the default object name.
pub open spec fn default_name() -> Seq<u8> {
    seq![100u8, 101u8, 118u8, 47u8, 97u8, 115u8, 104u8, 109u8, 101u8, 109u8]
}

/// The bytes of the name prefix every named object carries.
pub open spec fn name_prefix() -> Seq<u8> {
    default_name() + seq![47u8]
}

/// The effective length of a pin-family request: a zero length means
/// everything from the offset to the object's aligned end.
pub open spec fn effective_len(size: int, offset: int, cmd_len: int) -> int {
    if cmd_len == 0 {
        spec_page_align(size) - offset
    } else {
        cmd_len
    }
}

/// Whether a pin-family request is acceptable for an object of the given
/// size: page-aligned, non-empty, and inside the aligned size.
pub open spec fn pin_args_ok(size: int, offset: int, cmd_len: int) -> bool {
    let len = effective_len(size, offset, cmd_len);
    &&& (cmd_len == 0 ==> offset <= spec_page_align(size))
    &&& len > 0
    &&& spec_page_aligned(offset)
    &&& spec_page_aligned(len)
    &&& offset + len <= spec_page_align(size)
}

/// First page of an accepted request.
pub open spec fn spec_pgstart(offset: int) -> int {
    offset / (PAGE_SIZE as int)
}

/// Last page of an accepted request.
pub open spec fn spec_pgend(size: int, offset: int, cmd_len: int) -> int {
    spec_pgstart(offset) + effective_len(size, offset, cmd_len) / (PAGE_SIZE as int) - 1
}

/// The protection bits a set-protection request resolves to, given the
/// caller's personality and the surface knobs.
pub open spec fn resolved_prot(
    cur: usize,
    prot: usize,
    rie: bool,
    ignore_read: bool,
    ignore_exec: bool,
) -> usize {
    let p1 = if prot & PROT_READ != 0 && rie {
        prot | PROT_EXEC
    } else {
        prot
    };
    let p2 = if ignore_read {
        p1 | (cur & PROT_READ)
    } else {
        p1
    };
    if ignore_exec {
        p2 | (cur & PROT_EXEC)
    } else {
        p2
    }
}

/// Per-open-file state of one memory object, beside its area in the
/// tracker: the sizes and names the surface bookkeeps.
pub struct AshmemObject {
    pub size: usize,
    pub prot_mask: usize,
    pub name: Option<Vec<u8>>,
    pub has_backing: bool,
    pub obj: usize,
}

impl AshmemObject {
    /// The object's bookkeeping invariant: its size can be page-aligned,
    /// its name fits with a terminator, its protection bits are real.
    pub open spec fn wf(&self) -> bool {
        &&& self.size <= MAX_ALIGNABLE
        &&& (self.name matches Some(n) ==> n@.len() < ASHMEM_NAME_LEN)
        &&& self.prot_mask & !PROT_MASK == 0
    }

    /// A fresh object: no size, no name, no backing file, all protections.
    pub fn new(obj: usize) -> (r: AshmemObject)
        ensures
            r.wf(),
            r.size == 0,
            r.prot_mask == PROT_MASK,
            r.name == None::<Vec<u8>>,
            !r.has_backing,
            r.obj == obj,
    {
        proof {
            assert(7usize & !7usize == 0) by (bit_vector);
        }
        AshmemObject { size: 0, prot_mask: PROT_MASK, name: None, has_backing: false, obj }
    }

    /// Record that the backing file now exists.
    pub fn set_backing(&mut self)
        requires
            old(self).wf(),
        ensures
            final(self).wf(),
            *final(self) == (AshmemObject { has_backing: true, ..*old(self) }),
    {
        self.has_backing = true;
    }

    /// Store a name for the object, taken from a fixed-size user buffer:
    /// the bytes up to the first terminator, truncated so a terminator
    /// always fits. Refused once the backing file exists.
    pub fn set_name(&mut self, local_name: &Vec<u8>) -> (r: Result<(), AshmemError>)
        requires
            old(self).wf(),
            local_name@.len() == ASHMEM_NAME_LEN,
        ensures
            final(self).wf(),
            old(self).has_backing ==> r == Err::<(), AshmemError>(AshmemError::InvalidArgument)
                && *final(self) == *old(self),
            !old(self).has_backing ==> {
                &&& r == Ok::<(), AshmemError>(())
                &&& (final(self).name matches Some(n) && n@ == local_name@.take(
                    if first_nul(local_name@) < ASHMEM_NAME_LEN - 1 {
                        first_nul(local_name@)
                    } else {
                        ASHMEM_NAME_LEN - 1
                    },
                ))
                &&& final(self).size == old(self).size
                &&& final(self).prot_mask == old(self).prot_mask
                &&& final(self).has_backing == old(self).has_backing
                &&& final(self).obj == old(self).obj
            },
    {
        if self.has_backing {
            return Err(AshmemError::InvalidArgument);
        }
        proof {
            lemma_first_nul(local_name@);
        }
        let n = local_name.len();
        let mut len: usize = ASHMEM_NAME_LEN - 1;
        let mut i: usize = 0;
        let mut found = false;
        while i < n
            invariant
                n == local_name@.len(),
                n == ASHMEM_NAME_LEN,
                0 <= i <= n,
                !found ==> len == ASHMEM_NAME_LEN - 1 && (forall|k: int|
                    0 <= k < i && k < ASHMEM_NAME_LEN - 1 ==> local_name@[k] != 0),
                found ==> len == first_nul(local_name@) && len < ASHMEM_NAME_LEN - 1
                    && first_nul(local_name@) < ASHMEM_NAME_LEN - 1,
                0 <= first_nul(local_name@) <= n,
                first_nul(local_name@) < n ==> local_name@[first_nul(local_name@)] == 0,
                forall|k: int| 0 <= k < first_nul(local_name@) ==> local_name@[k] != 0,
            decreases n - i,
        {
            if !found && local_name[i] == 0 && i < ASHMEM_NAME_LEN - 1 {
                len = i;
                found = true;
                proof {
                    if first_nul(local_name@) < i {
                        assert(local_name@[first_nul(local_name@)] == 0);
                        assert(false);
                    }
                    if first_nul(local_name@) > i {
                        assert(local_name@[i as int] != 0);
                        assert(false);
                    }
                }
            }
            i = i + 1;
        }
        proof {
            if !found {
                assert(first_nul(local_name@) >= ASHMEM_NAME_LEN - 1) by {
                    if first_nul(local_name@) < ASHMEM_NAME_LEN - 1 {
                        assert(local_name@[first_nul(local_name@)] == 0);
                    }
                }
            }
        }
        let mut v: Vec<u8> = Vec::new();
        let mut j: usize = 0;
        while j < len
            invariant
                0 <= j <= len,
                len < ASHMEM_NAME_LEN,
                len <= local_name@.len(),
                n == local_name@.len(),
                v@ =~= local_name@.take(j as int),
            decreases len - j,
        {
            v.push(local_name[j]);
            proof {
                assert(v@ =~= local_name@.take(j as int + 1));
            }
            j = j + 1;
        }
        proof {
            assert(v@ =~= local_name@.take(len as int));
        }
        self.name = Some(v);
        Ok(())
    }

    /// The object's name with its terminator: the stored bytes, or the
    /// default name when none was set.
    pub fn get_name(&self) -> (r: Vec<u8>)
        requires
            self.wf(),
        ensures
            self.name matches Some(n) ==> r@ == n@ + seq![0u8],
            self.name matches None ==> r@ == default_name() + seq![0u8],
    {
        let mut out: Vec<u8> = Vec::new();
        match &self.name {
            Some(n) => {
                let m = n.len();
                let mut i: usize = 0;
                while i < m
                    invariant
                        m == n@.len(),
                        0 <= i <= m,
                        out@ =~= n@.take(i as int),
                    decreases m - i,
                {
                    out.push(n[i]);
                    proof {
                        assert(out@ =~= n@.take(i as int + 1));
                    }
                    i = i + 1;
                }
                out.push(0);
                proof {
                    assert(n@.take(m as int) =~= n@);
                    assert(out@ =~= n@ + seq![0u8]);
                }
            },
            None => {
                out.push(100);
                out.push(101);
                out.push(118);
                out.push(47);
                out.push(97);
                out.push(115);
                out.push(104);
                out.push(109);
                out.push(101);
                out.push(109);
                out.push(0);
                proof {
                    assert(out@ =~= default_name() + seq![0u8]);
                }
            },
        }
        out
    }

    /// The full backing-file name: the prefix, then the stored name, then
    /// the terminator; without a stored name the bare prefix word.
    pub fn full_name(&self) -> (r: Vec<u8>)
        requires
            self.wf(),
        ensures
            self.name matches Some(n) ==> r@ == name_prefix() + n@ + seq![0u8],
            self.name matches None ==> r@ == default_name() + seq![0u8],
    {
        match &self.name {
            Some(n) => {
                let mut out: Vec<u8> = Vec::new();
                out.push(100);
                out.push(101);
                out.push(118);
                out.push(47);
                out.push(97);
                out.push(115);
                out.push(104);
                out.push(109);
                out.push(101);
                out.push(109);
                out.push(47);
                proof {
                    assert(out@ =~= name_prefix());
                }
                let ghost pre = out@;
                let m = n.len();
                let mut i: usize = 0;
                while i < m
                    invariant
                        m == n@.len(),
                        0 <= i <= m,
                        pre == name_prefix(),
                        out@ =~= pre + n@.take(i as int),
                    decreases m - i,
                {
                    out.push(n[i]);
                    proof {
                        assert(out@ =~= pre + n@.take(i as int + 1));
                    }
                    i = i + 1;
                }
                out.push(0);
                proof {
                    assert(n@.take(m as int) =~= n@);
                    assert(out@ =~= name_prefix() + n@ + seq![0u8]);
                }
                out
            },
            None => self.get_name(),
        }
    }

    /// Set the object's size, before any backing file exists. A size
    /// whose page-aligned form would overflow is refused outright.
    pub fn set_size(&mut self, size: usize) -> (r: Result<(), AshmemError>)
        requires
            old(self).wf(),
        ensures
            final(self).wf(),
            (old(self).has_backing || size > MAX_ALIGNABLE)
                ==> r == Err::<(), AshmemError>(AshmemError::InvalidArgument)
                    && *final(self) == *old(self),
            !(old(self).has_backing || size > MAX_ALIGNABLE) ==> {
                &&& r == Ok::<(), AshmemError>(())
                &&& *final(self) == (AshmemObject { size, ..*old(self) })
            },
    {
        if self.has_backing || size > MAX_ALIGNABLE {
            return Err(AshmemError::InvalidArgument);
        }
        self.size = size;
        Ok(())
    }

    /// The object's size.
    pub fn get_size(&self) -> (r: usize)
        ensures
            r == self.size,
    {
        self.size
    }

    /// Apply a set-protection request: the caller can only drop bits,
    /// never add any, after the personality and the surface knobs have
    /// had their say.
    pub fn set_prot_mask(&mut self, prot: usize, task: &Task, settings: &Settings) -> (r:
        Result<(), AshmemError>)
        requires
            old(self).wf(),
        ensures
            final(self).wf(),
            ({
                let q = resolved_prot(
                    old(self).prot_mask,
                    prot,
                    task.personality & crate::task::READ_IMPLIES_EXEC != 0,
                    settings.ignore_unset_prot_read,
                    settings.ignore_unset_prot_exec,
                );
                &&& ((old(self).prot_mask & q) != q ==> r == Err::<(), AshmemError>(
                    AshmemError::InvalidArgument,
                ) && *final(self) == *old(self))
                &&& ((old(self).prot_mask & q) == q ==> r == Ok::<(), AshmemError>(())
                    && *final(self) == (AshmemObject { prot_mask: q, ..*old(self) }))
            }),
    {
        let rie = crate::task::read_implies_exec(task);
        let mut p = prot;
        if p & PROT_READ != 0 && rie {
            p = p | PROT_EXEC;
        }
        if settings.ignore_unset_prot_read {
            p = p | (self.prot_mask & PROT_READ);
        }
        if settings.ignore_unset_prot_exec {
            p = p | (self.prot_mask & PROT_EXEC);
        }
        if (self.prot_mask & p) != p {
            return Err(AshmemError::InvalidArgument);
        }
        proof {
            let cur = self.prot_mask;
            assert(p & !PROT_MASK == 0) by (bit_vector)
                requires
                    (cur & p) == p,
                    cur & !PROT_MASK == 0,
            ;
        }
        self.prot_mask = p;
        Ok(())
    }

    /// The object's protection bits.
    pub fn get_prot_mask(&self) -> (r: usize)
        ensures
            r == self.prot_mask,
    {
        self.prot_mask
    }

    /// Decide a mapping request: the object must have a size, the mapping
    /// must fit the aligned size, and the plan lists which may-bits to
    /// drop and whether the backing file must be created first.
    pub fn mmap_prepare(&self, vma_len: usize, vma_shared: bool) -> (r: Result<
        MmapPlan,
        AshmemError,
    >)
        requires
            self.wf(),
        ensures
            (self.size == 0 || vma_len > spec_page_align(self.size as int))
                ==> r == Err::<MmapPlan, AshmemError>(AshmemError::InvalidArgument),
            !(self.size == 0 || vma_len > spec_page_align(self.size as int))
                ==> r == Ok::<MmapPlan, AshmemError>(
                MmapPlan {
                    clear_maywrite: self.prot_mask & PROT_WRITE == 0,
                    clear_mayexec: self.prot_mask & PROT_EXEC == 0,
                    clear_mayread: self.prot_mask & PROT_READ == 0,
                    needs_backing_file: !self.has_backing,
                    use_zero_setup: vma_shared,
                },
            ),
    {
        if self.size == 0 {
            return Err(AshmemError::InvalidArgument);
        }
        let aligned = page_align(self.size);
        if vma_len > aligned {
            return Err(AshmemError::InvalidArgument);
        }
        Ok(
            MmapPlan {
                clear_maywrite: self.prot_mask & PROT_WRITE == 0,
                clear_mayexec: self.prot_mask & PROT_EXEC == 0,
                clear_mayread: self.prot_mask & PROT_READ == 0,
                needs_backing_file: !self.has_backing,
                use_zero_setup: vma_shared,
            },
        )
    }

    /// Check a seek may proceed: the object needs a size, and a backing
    /// file must exist. (A read of a sizeless object is not an error but
    /// plain end-of-file; that is the caller's branch.)
    pub fn io_check(&self) -> (r: Result<(), AshmemError>)
        ensures
            self.size == 0 ==> r == Err::<(), AshmemError>(AshmemError::InvalidArgument),
            self.size != 0 && !self.has_backing ==> r == Err::<(), AshmemError>(
                AshmemError::BadFileDescriptor,
            ),
            self.size != 0 && self.has_backing ==> r == Ok::<(), AshmemError>(()),
    {
        if self.size == 0 {
            return Err(AshmemError::InvalidArgument);
        }
        if !self.has_backing {
            return Err(AshmemError::BadFileDescriptor);
        }
        Ok(())
    }

    /// Validate and dispatch a pin-family request over a byte range of
    /// this object. A zero length means everything onward from the
    /// offset; offset and length must be whole pages inside the aligned
    /// size, else the request fails with no side effect. An accepted
    /// request covers the pages `[offset, offset + len)` scaled down by
    /// the page size, and goes to the tracker as pin, unpin or status
    /// query of this object.
    #[verifier::rlimit(100)]
    pub fn pin_unpin(
        &self,
        tracker: &mut Tracker,
        cmd: PinCommand,
        offset: usize,
        cmd_len: usize,
    ) -> (r: Result<PinUnpinOutcome, AshmemError>)
        requires
            self.wf(),
            old(tracker).wf(),
            self.obj < old(tracker).n_objects(),
            old(tracker).lru.count + spec_page_align(self.size as int) / (PAGE_SIZE as int)
                <= usize::MAX,
        ensures
            final(tracker).wf(),
            final(tracker).n_objects() == old(tracker).n_objects(),
            forall|o: int|
                0 <= o < old(tracker).n_objects() && o != self.obj
                    ==> (#[trigger] final(tracker).objects@[o])@ == old(tracker).objects@[o]@,
            (!self.has_backing || !pin_args_ok(self.size as int, offset as int, cmd_len as int))
                <==> r == Err::<PinUnpinOutcome, AshmemError>(AshmemError::InvalidArgument),
            r == Err::<PinUnpinOutcome, AshmemError>(AshmemError::InvalidArgument) ==> {
                &&& final(tracker).objects@ == old(tracker).objects@
                &&& final(tracker).lru.entries@ == old(tracker).lru.entries@
                &&& final(tracker).lru.count == old(tracker).lru.count
            },
            self.has_backing && pin_args_ok(self.size as int, offset as int, cmd_len as int)
                ==> ({
                let qs = spec_pgstart(offset as int);
                let qe = spec_pgend(self.size as int, offset as int, cmd_len as int);
                let a0 = old(tracker).area_seq(self.obj as int);
                let a1 = final(tracker).area_seq(self.obj as int);
                match cmd {
                    PinCommand::Unpin => {
                        &&& r == Ok::<PinUnpinOutcome, AshmemError>(PinUnpinOutcome::Unpinned)
                        &&& (forall|p: int|
                            #[trigger] covers(a1, p) <==> (covers(a0, p) || qs <= p <= qe))
                        &&& (forall|p: int|
                            #[trigger] purged_at(a1, p) == (if same_entry(a1, p, qs) {
                                any_purged_touching(a0, qs, qe)
                            } else {
                                purged_at(a0, p)
                            }))
                    },
                    PinCommand::Pin => {
                        &&& r == Ok::<PinUnpinOutcome, AshmemError>(
                            PinUnpinOutcome::Pinned(
                                if exists|p: int| qs <= p <= qe && purged_at(a0, p) {
                                    WasPurged::Yes
                                } else {
                                    WasPurged::No
                                },
                            ),
                        )
                        &&& (forall|p: int|
                            #[trigger] covers(a1, p) <==> (covers(a0, p) && !(qs <= p <= qe)))
                        &&& (forall|p: int|
                            #[trigger] covers(a1, p) ==> purged_at(a1, p) == purged_at(a0, p))
                    },
                    PinCommand::GetPinStatus => {
                        &&& r == Ok::<PinUnpinOutcome, AshmemError>(
                            PinUnpinOutcome::Status(
                                if exists|p: int| qs <= p <= qe && covers(a0, p) {
                                    PinStatus::Unpinned
                                } else {
                                    PinStatus::Pinned
                                },
                            ),
                        )
                        &&& final(tracker).objects@ == old(tracker).objects@
                        &&& final(tracker).lru.entries@ == old(tracker).lru.entries@
                        &&& final(tracker).lru.count == old(tracker).lru.count
                    },
                }
            }),
    {
        if !self.has_backing {
            return Err(AshmemError::InvalidArgument);
        }
        let aligned = page_align(self.size);
        let len: usize;
        if cmd_len == 0 {
            if offset > aligned {
                return Err(AshmemError::InvalidArgument);
            }
            len = aligned - offset;
        } else {
            len = cmd_len;
        }
        if len == 0 {
            return Err(AshmemError::InvalidArgument);
        }
        if offset % PAGE_SIZE != 0 || len % PAGE_SIZE != 0 {
            return Err(AshmemError::InvalidArgument);
        }
        let len_plus = match offset.checked_add(len) {
            Some(v) => v,
            None => {
                return Err(AshmemError::InvalidArgument);
            },
        };
        if aligned < len_plus {
            return Err(AshmemError::InvalidArgument);
        }
        let pgstart = offset / PAGE_SIZE;
        let pgend = len_plus / PAGE_SIZE - 1;
        proof {
            lemma_pin_range(self.size as int, offset as int, cmd_len as int, len as int);
        }
        match cmd {
            PinCommand::Pin => {
                let wp = tracker.pin(self.obj, pgstart, pgend);
                Ok(
                    PinUnpinOutcome::Pinned(
                        if wp {
                            WasPurged::Yes
                        } else {
                            WasPurged::No
                        },
                    ),
                )
            },
            PinCommand::Unpin => {
                tracker.unpin(self.obj, pgstart, pgend);
                Ok(PinUnpinOutcome::Unpinned)
            },
            PinCommand::GetPinStatus => {
                let up = tracker.range_has_unpinned_page(self.obj, pgstart, pgend);
                Ok(
                    PinUnpinOutcome::Status(
                        if up {
                            PinStatus::Unpinned
                        } else {
                            PinStatus::Pinned
                        },
                    ),
                )
            },
        }
    }
}

/// Page conversion of an accepted pin-family request: the page interval
/// is non-empty, capped by the page-index limit, and sized by the
/// effective length in pages.
proof fn lemma_pin_range(size: int, offset: int, cmd_len: int, len: int)
    requires
        0 <= size <= MAX_ALIGNABLE,
        0 <= offset,
        0 <= cmd_len,
        len == effective_len(size, offset, cmd_len),
        pin_args_ok(size, offset, cmd_len),
    ensures
        spec_pgstart(offset) <= spec_pgend(size, offset, cmd_len),
        0 <= spec_pgstart(offset),
        spec_pgend(size, offset, cmd_len) <= MAX_PAGE,
        spec_pgend(size, offset, cmd_len) == (offset + len) / (PAGE_SIZE as int) - 1,
        spec_pgend(size, offset, cmd_len) - spec_pgstart(offset) + 1 == len / (PAGE_SIZE as int),
        spec_pgend(size, offset, cmd_len) - spec_pgstart(offset) + 1 <= spec_page_align(size)
            / (PAGE_SIZE as int),
{
    let p = PAGE_SIZE as int;
    let op = offset / p;
    let lp = len / p;
    vstd::arithmetic::div_mod::lemma_fundamental_div_mod(offset, p);
    vstd::arithmetic::div_mod::lemma_fundamental_div_mod(len, p);
    assert(offset == p * op && len == p * lp);
    assert(lp >= 1) by {
        if lp <= 0 {
            assert(len <= 0) by (nonlinear_arith)
                requires
                    lp <= 0,
                    p > 0,
                    len == p * lp,
            ;
        }
    }
    assert(op >= 0) by {
        vstd::arithmetic::div_mod::lemma_div_pos_is_pos(offset, p);
    }
    assert(offset + len == p * (op + lp)) by (nonlinear_arith)
        requires
            offset == p * op,
            len == p * lp,
    ;
    vstd::arithmetic::div_mod::lemma_div_multiples_vanish(op + lp, p);
    assert((offset + len) / p == op + lp);
    lemma_page_align_bounds(size);
    assert(spec_page_align(size) <= usize::MAX) by {
        assert(spec_page_align(size) < size + PAGE_SIZE);
    }
    vstd::arithmetic::div_mod::lemma_div_is_ordered(offset + len, spec_page_align(size), p);
    vstd::arithmetic::div_mod::lemma_div_is_ordered(
        spec_page_align(size),
        usize::MAX as int,
        p,
    );
    assert(op + lp <= (usize::MAX as int) / p);
}

/// Administrative cache flush: demands the administrative capability of
/// its caller, reports the reclaimable total as it stood, and reclaims
/// with an unbounded budget, ignoring the cooperative early stop. The
/// queue drains completely, every range ends purged, and the storage
/// layer receives one discard request per evicted range.
#[verifier::rlimit(100)]
pub fn purge_all_caches(tracker: &mut Tracker, task: &Task) -> (r: (
    Result<usize, AshmemError>,
    Vec<Discard>,
))
    requires
        old(tracker).wf(),
    ensures
        final(tracker).wf(),
        final(tracker).n_objects() == old(tracker).n_objects(),
        task.capabilities & (1u64 << (CAP_SYS_ADMIN as u64)) == 0 ==> {
            &&& r.0 == Err::<usize, AshmemError>(AshmemError::PermissionDenied)
            &&& r.1@.len() == 0
            &&& final(tracker).objects@ == old(tracker).objects@
            &&& final(tracker).lru.entries@ == old(tracker).lru.entries@
            &&& final(tracker).lru.count == old(tracker).lru.count
        },
        task.capabilities & (1u64 << (CAP_SYS_ADMIN as u64)) != 0 ==> {
            &&& r.0 == Ok::<usize, AshmemError>(old(tracker).lru.count)
            &&& final(tracker).lru.entries@ == Seq::<crate::lru::LruEntry>::empty()
            &&& final(tracker).lru.count == 0
            &&& r.1@.len() == old(tracker).lru.entries@.len()
            &&& (forall|j: int|
                0 <= j < r.1@.len() ==> #[trigger] r.1@[j] == crate::tracker::discard_of(
                    old(tracker).lru.entries@[old(tracker).lru.entries@.len() - 1 - j],
                ))
            &&& (forall|o: int|
                0 <= o < old(tracker).n_objects()
                    ==> (#[trigger] final(tracker).area_seq(o)).len() == old(
                    tracker,
                ).area_seq(o).len())
            &&& (forall|o: usize, i: int|
                (o as int) < old(tracker).n_objects() && 0 <= i < old(tracker).area_seq(
                    o as int,
                ).len() ==> (#[trigger] final(tracker).area_seq(o as int)[i]).purged)
            &&& (forall|o: usize, p: int|
                (o as int) < old(tracker).n_objects()
                    ==> #[trigger] covers(final(tracker).area_seq(o as int), p) == covers(
                    old(tracker).area_seq(o as int),
                    p,
                ))
        },
{
    if !has_cap_sys_admin(task) {
        return (Err(AshmemError::PermissionDenied), Vec::new());
    }
    let ghost t0 = *old(tracker);
    let total = tracker.lru_count();
    let (_freed, discards) = tracker.free_lru(usize::MAX, false);
    proof {
        let q0 = t0.lru.entries@;
        crate::tracker::lemma_evict_count_all(q0, usize::MAX as int);
        assert(tracker.lru.entries@ =~= Seq::<crate::lru::LruEntry>::empty());
        assert(q0.skip(0) =~= q0);
        assert(discards@.len() == q0.len());
        assert forall|o: usize, i: int|
            (o as int) < t0.n_objects() && 0 <= i < t0.area_seq(o as int).len()
            implies (#[trigger] tracker.area_seq(o as int)[i]).purged by {
            let r0 = t0.area_seq(o as int)[i];
            if !r0.purged {
                assert(lru_has(q0, o, r0.pgstart));
                assert(lru_has(q0.skip(q0.len() - discards@.len()), o, r0.pgstart));
            }
        }
    }
    (Ok(total), discards)
}

} // verus!
