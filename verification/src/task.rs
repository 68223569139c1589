//! Plain-value model of the task context the tracker's policy reads.
//!
//! The embedding layer extracts these values from the calling execution
//! context and hands them in; the policy decisions over them (capability
//! checks, personality bits) are verified here.

use vstd::prelude::*;

verus! {

/// Capability number of the administrative capability that the purge-all
/// operation demands of its caller.
pub const CAP_SYS_ADMIN: i32 = 21;

/// Personality flag: mapping a region readable makes it executable too.
pub const READ_IMPLIES_EXEC: u32 = 0x0400000;

/// A kernel user identifier.
#[derive(Clone, Copy, Debug)]
pub struct Kuid {
    kuid: u32,
}

impl Kuid {
    /// The raw UID value this identifier carries.
    pub closed spec fn spec_raw(&self) -> u32 {
        self.kuid
    }

    /// Wrap a raw UID value.
    pub fn from_raw(kuid: u32) -> (r: Kuid)
        ensures
            r.spec_raw() == kuid,
    {
        Kuid { kuid }
    }

    /// Unwrap to the raw UID value.
    pub fn into_raw(self) -> (r: u32)
        ensures
            r == self.spec_raw(),
    {
        self.kuid
    }
}

/// The values of a task's context that the tracker's policy reads: its
/// personality flags, its capability set as a bit mask, and its
/// identifiers.
#[derive(Clone, Copy, Debug)]
pub struct Task {
    pub personality: u32,
    pub capabilities: u64,
    pub pid: i32,
    pub euid: Kuid,
}

impl Task {
    /// Whether the task holds the capability with the given bit number.
    pub fn has_capability_noaudit(&self, capability: i32) -> (r: bool)
        requires
            0 <= capability < 64,
        ensures
            r == (self.capabilities & (1u64 << (capability as u64)) != 0),
    {
        self.capabilities & (1u64 << (capability as u64)) != 0
    }

    /// The task's process identifier.
    pub fn pid(&self) -> (r: i32)
        ensures
            r == self.pid,
    {
        self.pid
    }

    /// The task's effective user identifier.
    pub fn euid(&self) -> (r: Kuid)
        ensures
            r == self.euid,
    {
        self.euid
    }
}

/// Whether the calling task's personality makes every readable
/// mapping executable as well.
pub fn read_implies_exec(task: &Task) -> (r: bool)
    ensures
        r == (task.personality & READ_IMPLIES_EXEC != 0),
{
    (task.personality & READ_IMPLIES_EXEC) != 0
}

/// Whether the caller may run administrative cache flushes.
pub fn has_cap_sys_admin(task: &Task) -> (r: bool)
    ensures
        r == (task.capabilities & (1u64 << (CAP_SYS_ADMIN as u64)) != 0),
{
    task.has_capability_noaudit(CAP_SYS_ADMIN)
}

} // verus!
