//! Fault isolation: a dedicated execution stack reserved for the
//! double-fault handler, and the dispatch entry that switches to it.
//!
//! A stack overflow corrupts the guard region below the primary stack; a
//! double-fault handler running on that same corrupted stack would fault
//! again and reset the machine ("triple fault"). Running the handler on
//! an independent, pre-allocated stack breaks that cycle, so the fault is
//! caught and reported instead.
use vstd::prelude::*;

verus! {

/// Fixed slot of the interrupt stack table reserved for the double-fault
/// stack.
pub const DOUBLE_FAULT_IST_INDEX: usize = 0;

/// Number of slots in the interrupt stack table.
pub const IST_SLOTS: usize = 7;

/// Which stack an installed handler runs on.
#[derive(Debug, Clone, Copy, PartialEq, Eq, Structural)]
pub enum StackChoice {
    /// Keep running on the interrupted stack.
    Interrupted,
    /// Switch to the dedicated stack recorded in the given table slot.
    Dedicated(usize),
}

/// One installed dispatch-table entry.
#[derive(Debug, Clone, Copy, PartialEq, Eq, Structural)]
pub struct GateDescriptor {
    pub stack: StackChoice,
}

/// Outcome of a double fault reaching the processor.
#[derive(Debug, Clone, Copy, PartialEq, Eq, Structural)]
pub enum FaultOutcome {
    /// The handler ran to completion and the fault was reported.
    Caught,
    /// The handler itself faulted: the machine resets ("triple fault").
    Reset,
}

/// The fault-isolation state: the interrupt stack table (top address of
/// each dedicated stack, where one is reserved) and the double-fault
/// dispatch entry.
pub struct FaultConfig {
    pub ist_stacks: Vec<Option<u64>>,
    pub double_fault: Option<GateDescriptor>,
}

impl FaultConfig {
    pub open spec fn wf(self) -> bool {
        self.ist_stacks@.len() == IST_SLOTS
    }

    /// The double-fault vector is installed and switches to a present
    /// dedicated stack before its first push.
    pub open spec fn double_fault_protected(self) -> bool {
        match self.double_fault {
            Some(g) => match g.stack {
                StackChoice::Dedicated(s) => s < IST_SLOTS && self.ist_stacks@[s as int] is Some,
                StackChoice::Interrupted => false,
            },
            None => false,
        }
    }
}

/// What a double fault does under configuration `c` when the interrupted
/// stack may already be corrupt.
pub open spec fn double_fault_outcome(c: FaultConfig, interrupted_stack_corrupt: bool) -> FaultOutcome {
    match c.double_fault {
        None => FaultOutcome::Reset,
        Some(g) => match g.stack {
            StackChoice::Dedicated(s) =>
                if s < IST_SLOTS && c.ist_stacks@[s as int] is Some {
                    FaultOutcome::Caught
                } else {
                    FaultOutcome::Reset
                },
            StackChoice::Interrupted =>
                if interrupted_stack_corrupt {
                    FaultOutcome::Reset
                } else {
                    FaultOutcome::Caught
                },
        },
    }
}

/// Reserves the dedicated double-fault stack in its fixed, indexed slot
/// and installs the double-fault entry to run on it. Must run before any
/// code that could recurse unboundedly. Idempotent: the configuration is
/// a function of the stack top alone, so a second call rebuilds the same
/// state.
pub fn init(double_fault_stack_top: u64) -> (c: FaultConfig)
    ensures
        c.wf(),
        c.double_fault_protected(),
        c.ist_stacks@.len() == IST_SLOTS,
        c.ist_stacks@[DOUBLE_FAULT_IST_INDEX as int] == Some(double_fault_stack_top),
        forall|s: int| 0 <= s < IST_SLOTS && s != DOUBLE_FAULT_IST_INDEX ==>
            c.ist_stacks@[s] is None,
        c.double_fault == Some(GateDescriptor { stack: StackChoice::Dedicated(DOUBLE_FAULT_IST_INDEX) }),
{
    let mut ist_stacks: Vec<Option<u64>> = Vec::new();
    let mut s: usize = 0;
    while s < IST_SLOTS
        invariant
            s <= IST_SLOTS,
            ist_stacks@.len() == s,
            forall|j: int| 0 <= j < s ==> #[trigger] ist_stacks@[j] is None,
        decreases IST_SLOTS - s,
    {
        ist_stacks.push(None);
        s = s + 1;
    }
    ist_stacks[DOUBLE_FAULT_IST_INDEX] = Some(double_fault_stack_top);
    FaultConfig {
        ist_stacks,
        double_fault: Some(GateDescriptor { stack: StackChoice::Dedicated(DOUBLE_FAULT_IST_INDEX) }),
    }
}

/// Dispatches a double fault: with the dedicated stack installed the
/// fault is caught even when the interrupted stack is corrupt; a handler
/// left on a corrupted stack re-faults and the machine resets.
pub fn on_double_fault(c: &FaultConfig, interrupted_stack_corrupt: bool) -> (o: FaultOutcome)
    requires
        c.wf(),
    ensures
        o == double_fault_outcome(*c, interrupted_stack_corrupt),
        c.double_fault_protected() ==> o is Caught,
{
    match c.double_fault {
        None => FaultOutcome::Reset,
        Some(g) => match g.stack {
            StackChoice::Dedicated(s) => {
                if s < IST_SLOTS {
                    match c.ist_stacks[s] {
                        Some(_) => FaultOutcome::Caught,
                        None => FaultOutcome::Reset,
                    }
                } else {
                    FaultOutcome::Reset
                }
            },
            StackChoice::Interrupted => {
                if interrupted_stack_corrupt {
                    FaultOutcome::Reset
                } else {
                    FaultOutcome::Caught
                }
            },
        },
    }
}

/// Whether interrupt delivery is currently enabled. Any data shared with
/// an interrupt handler is mutated only while delivery is disabled.
pub struct InterruptFlag {
    pub enabled: bool,
}

/// Opens a critical section: disables interrupt delivery and hands back
/// what must be restored on every exit path.
pub fn enter_critical(f: &mut InterruptFlag) -> (saved: bool)
    ensures
        !final(f).enabled,
        saved == old(f).enabled,
{
    let saved = f.enabled;
    f.enabled = false;
    saved
}

/// Closes a critical section: restores the delivery state saved when it
/// was opened.
pub fn exit_critical(f: &mut InterruptFlag, saved: bool)
    ensures
        final(f).enabled == saved,
{
    f.enabled = saved;
}

/// Law: a critical section masks interrupt delivery for its whole extent
/// and leaves the flag exactly as it found it, nested sections included.
pub proof fn lemma_critical_section_restores(before: InterruptFlag, masked: InterruptFlag, after: InterruptFlag, saved: bool)
    requires
        // what enter_critical ensures
        !masked.enabled,
        saved == before.enabled,
        // what exit_critical ensures
        after.enabled == saved,
    ensures
        after.enabled == before.enabled,
{
}

/// Law: once `init` has run, a double fault is always caught — never a
/// hardware reset — whatever state the interrupted stack is in.
pub proof fn lemma_init_catches_double_fault(c: FaultConfig, interrupted_stack_corrupt: bool)
    requires
        c.double_fault_protected(),
    ensures
        double_fault_outcome(c, interrupted_stack_corrupt) is Caught,
{
}

} // verus!
