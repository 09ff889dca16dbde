//! Per-CPU execution state threaded through every compiled chunk.
//!
//! This is the state that is *not* part of the architectural guest state:
//! the [`ExecContext`] holds the current exclusive-monitor reservation and a
//! [`FFISafeMemoryFault`] slot where compiled code records guest memory
//! faults.
use vstd::prelude::*;
use crate::exclusive_monitor::Reservation;
use crate::fault::{MemoryFault, MemoryFaultReason};

verus! {

/// The kind of guest memory operation that raised a memory fault.
#[derive(Clone, Copy, PartialEq, Eq, Structural, Debug)]
pub enum MemOp {
    /// A guest load faulted.
    Load,
    /// A guest store faulted.
    Store,
    /// A guest read-modify-write (e.g., an atomic) faulted.
    Rwm,
}

/// Storage for a pending guest [`MemoryFault`].
///
/// Compiled code cannot return a rich error, so the memory-access fallbacks
/// record faults in here (via [`set_fault`](Self::set_fault)), and the
/// dispatcher retrieves them afterward with
/// [`take_memory_fault`](Self::take_memory_fault).
pub struct FFISafeMemoryFault {
    pub was_real_memory_trap: bool,
    pub vaddr: u64,
    pub mem_op: MemOp,
    pub bus_error: Option<anyhow::Error>,
}

impl FFISafeMemoryFault {
    /// The pending fault with the operation that raised it.
    pub open spec fn pending(self) -> Option<(MemoryFault, MemOp)> {
        if self.was_real_memory_trap {
            let reason = match self.bus_error {
                Some(error) => MemoryFaultReason::MemoryBus(error),
                None => MemoryFaultReason::GeneralProtection,
            };
            Some((MemoryFault { vaddr: self.vaddr, reason }, self.mem_op))
        } else {
            None
        }
    }

    /// Creates an empty slot with no pending fault.
    pub fn new() -> (r: Self)
        ensures
            r.pending() is None,
            r.bus_error is None,
    {
        FFISafeMemoryFault {
            was_real_memory_trap: false,
            vaddr: 0,
            mem_op: MemOp::Load,
            bus_error: None,
        }
    }

    /// Records `error` as the pending fault, remembering `mem_op` as the
    /// kind of access that raised it. Any previously stored bus error is
    /// dropped.
    pub fn set_fault(&mut self, mem_op: MemOp, error: MemoryFault)
        ensures
            final(self).pending() == Some((error, mem_op)),
    {
        self.vaddr = error.vaddr();
        self.mem_op = mem_op;
        self.was_real_memory_trap = true;
        match error.into_reason() {
            MemoryFaultReason::GeneralProtection => {
                self.bus_error = None;
            },
            MemoryFaultReason::MemoryBus(error) => {
                self.bus_error = Some(error);
            },
        }
    }

    /// Takes the pending fault, if any, clearing the slot.
    ///
    /// Returns the [`MemoryFault`] together with the kind of memory
    /// operation that raised it, or `None` if no fault is pending.
    pub fn take_memory_fault(&mut self) -> (r: Option<(MemoryFault, MemOp)>)
        ensures
            r == old(self).pending(),
            final(self).pending() is None,
    {
        if !self.was_real_memory_trap {
            return None;
        }
        self.was_real_memory_trap = false;
        let fault = match self.bus_error.take() {
            None => MemoryFault::general_protection(self.vaddr),
            Some(error) => MemoryFault::memory_bus(self.vaddr, error),
        };
        Some((fault, self.mem_op))
    }
}

impl Default for FFISafeMemoryFault {
    fn default() -> (r: Self)
        ensures
            r.pending() is None,
    {
        Self::new()
    }
}

/// Per-CPU execution context threaded through every compiled chunk.
///
/// It does not need to be kept across separate executions, and can always
/// just be recreated, though it should generally be reused so that exclusive
/// stores have a lower chance of failing.
pub struct ExecContext {
    pub exclusive_monitor_reservation: Option<Reservation>,
    /// Where compiled code records a guest memory fault; check and clear it
    /// with [`FFISafeMemoryFault::take_memory_fault`] after a chunk exits
    /// with a memory-fault halt reason.
    pub current_mem_fault: FFISafeMemoryFault,
}

impl ExecContext {
    /// Creates the initial context: no exclusive reservation and no pending
    /// memory fault.
    pub fn initial() -> (r: Self)
        ensures
            r.exclusive_monitor_reservation is None,
            r.current_mem_fault.pending() is None,
    {
        ExecContext {
            exclusive_monitor_reservation: None,
            current_mem_fault: FFISafeMemoryFault::new(),
        }
    }
}

} // verus!
