//! Memory-management and fault-isolation core of a freestanding kernel,
//! modelled over plain values: a physical frame allocator fed by the
//! boot-provided memory map, a hierarchical page mapper, a free-list heap
//! allocator, a fault-isolation configuration, and a test harness.
use vstd::prelude::*;

pub mod allocator;
pub mod fault;
pub mod harness;
pub mod memory;
pub mod paging;

verus! {

/// Exit signal written once to the hardware exit port of the hosting
/// emulator at process end: `Success` as `0x10`, `Failed` as `0x11`.
#[derive(Debug, Clone, Copy, PartialEq, Eq, Structural)]
pub enum QemuExitCode {
    Success,
    Failed,
}

impl QemuExitCode {
    /// The 4-byte value written to the exit port for this signal.
    pub fn code(self) -> (c: u32)
        ensures
            self is Success ==> c == 0x10,
            self is Failed ==> c == 0x11,
    {
        match self {
            QemuExitCode::Success => 0x10,
            QemuExitCode::Failed => 0x11,
        }
    }
}

/// The hosting environment turns the port value into a process exit
/// status: the value shifted left one bit, OR'd with 1.
pub fn host_exit_status(code: u32) -> (s: u32)
    requires
        code <= 0x7fff_ffff,
    ensures
        s == (code * 2 + 1),
{
    let s = (code << 1u32) | 1u32;
    proof {
        assert(code <= 0x7fff_ffff ==> ((code << 1u32) | 1u32) == code * 2 + 1) by (bit_vector);
    }
    s
}

/// Smallest self-check registered with the test harness.
pub fn trivial_assertion() -> (ok: bool)
    ensures
        ok,
{
    let a: u64 = 1;
    a == 1
}

} // verus!
