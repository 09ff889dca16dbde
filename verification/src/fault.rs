//! Memory fault types returned by failed MMU operations.
//!
//! Every fallible translation or access reports failure as a
//! [`MemoryFault`], which pairs the faulting virtual address with a
//! [`MemoryFaultReason`].
use vstd::prelude::*;

verus! {

/// `anyhow::Error`: the error of a memory object, carried through unread.
#[verifier::external_type_specification]
#[verifier::external_body]
pub struct ExAnyhowError(anyhow::Error);

/// The reason a [`MemoryFault`] was raised.
#[derive(Debug)]
pub enum MemoryFaultReason {
    /// The access violated MMU validation: an unmapped page, insufficient
    /// page permissions, address overflow, or a failed alignment check.
    GeneralProtection,
    /// The backing memory object reported an error while faulting a page in
    /// or out.
    MemoryBus(anyhow::Error),
}

/// This is returned when a memory access:
/// - targets an unmapped page,
/// - violates page permissions,
/// - overflows the virtual address range,
/// - fails an address-alignment check required by a specific operation,
/// - crosses into an unmapped or insufficiently-permitted page,
/// - or otherwise fails MMU validation.
#[derive(Debug)]
pub struct MemoryFault {
    pub vaddr: u64,
    pub reason: MemoryFaultReason,
}

/// The general-protection fault at `vaddr`.
pub open spec fn gp(vaddr: u64) -> MemoryFault {
    MemoryFault { vaddr, reason: MemoryFaultReason::GeneralProtection }
}

impl MemoryFault {
    /// Creates a [`MemoryFaultReason::GeneralProtection`] fault at `vaddr`.
    pub fn general_protection(vaddr: u64) -> (r: Self)
        ensures
            r == gp(vaddr),
    {
        MemoryFault { vaddr, reason: MemoryFaultReason::GeneralProtection }
    }

    /// Creates a [`MemoryFaultReason::MemoryBus`] fault at `vaddr` carrying
    /// the underlying backing-object error.
    pub fn memory_bus(vaddr: u64, reason: anyhow::Error) -> (r: Self)
        ensures
            r.vaddr == vaddr,
            r.reason == MemoryFaultReason::MemoryBus(reason),
    {
        MemoryFault { vaddr, reason: MemoryFaultReason::MemoryBus(reason) }
    }

    /// Returns the virtual address at which the fault occurred.
    pub fn vaddr(&self) -> (r: u64)
        ensures
            r == self.vaddr,
    {
        self.vaddr
    }

    /// Consumes the fault, returning the underlying reason for the memory
    /// fault.
    pub fn into_reason(self) -> (r: MemoryFaultReason)
        ensures
            r == self.reason,
    {
        self.reason
    }
}

} // verus!
