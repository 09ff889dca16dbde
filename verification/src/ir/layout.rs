//! Where compiled code finds the fields of the structures it works on.
use vstd::prelude::*;
use crate::exec_context::MemOp;
use crate::memory::MemFlags;

verus! {

/// The number of X registers of a guest CPU.
pub const X_REGISTER_COUNT: u8 = 31;

/// The X registers in the guest CPU's state, 8 bytes each.
pub const X_REGISTERS_OFFSET: usize = 0;

/// The stack pointer in the guest CPU's state.
pub const SP_OFFSET: usize = 248;

/// The program counter in the guest CPU's state.
pub const PC_OFFSET: usize = 256;

/// The flags word in the guest CPU's state.
pub const PSTATE_OFFSET: usize = 264;

/// The negative flag.
pub const PSTATE_N: u32 = 0x8000_0000;

/// The zero flag.
pub const PSTATE_Z: u32 = 0x4000_0000;

/// The carry flag.
pub const PSTATE_C: u32 = 0x2000_0000;

/// The overflow flag.
pub const PSTATE_V: u32 = 0x1000_0000;

/// The four condition flags.
pub const PSTATE_NZCV_MASK: u32 = 0xf000_0000;

/// Everything but the four condition flags.
pub const PSTATE_OTHER_MASK: u32 = 0x0fff_ffff;

/// The size of a TLB entry.
pub const TLB_ENTRY_SIZE: usize = 32;

/// The MMU identity token in a TLB entry.
pub const TLB_IDENT_OFFSET: usize = 0;

/// The page number in a TLB entry.
pub const TLB_PAGE_NUMBER_OFFSET: usize = 8;

/// The tagged page pointer in a TLB entry.
pub const TLB_TAGGED_PTR_OFFSET: usize = 16;

/// The pointer to the page's flags in a TLB entry.
pub const TLB_PAGE_FLAGS_OFFSET: usize = 24;

/// The bits of a page number that choose its TLB entry.
pub const TLB_MASK: u64 = 255;

/// The bits of an address that are its offset in the page.
pub const PAGE_OFFSET_MASK: u64 = 4095;

/// The shift from an address to its page number.
pub const PAGE_NUMBER_SHIFT: u8 = 12;

/// The pointer tag of a readable page.
pub const TAG_READ: u8 = 1;

/// The pointer tag of a writable page.
pub const TAG_WRITE: u8 = 2;

/// The pointer tag of an executable page.
pub const TAG_EXECUTE: u8 = 4;

/// The pointer tag of a copy-on-write page.
pub const TAG_COW: u8 = 8;

/// The pointer tag of a page that mirrors a shared memory object.
pub const TAG_DMA_DEV: u8 = 16;

/// The pointer tags of pages whose stores have to be noted.
pub const TAG_MUST_DIRTY: u8 = 20;

/// Every pointer tag.
pub const TAG_ALL: u8 = 31;

/// The faulting address in the execution context.
pub const FAULT_VADDR_OFFSET: usize = 0;

/// The faulting operation in the execution context.
pub const FAULT_MEM_OP_OFFSET: usize = 8;

/// Whether a fault is pending, in the execution context.
pub const FAULT_PENDING_OFFSET: usize = 9;

/// The dirty bit of a page's flags.
pub const PAGE_DIRTY_FLAG: u8 = 1;

/// What marks a halt reason as a memory trap.
pub const MEMORY_TRAP: u32 = 0x100;

/// Why a compiled function returned early. Zero stands for no reason.
#[derive(Debug, Clone, Copy, PartialEq, Eq, Structural)]
pub struct HaltReason {
    pub code: u32,
}

impl HaltReason {
    pub open spec fn spec_memory_trap(bytes: u8) -> HaltReason {
        HaltReason { code: (MEMORY_TRAP + bytes) as u32 }
    }

    /// A guest memory access of `bytes` bytes faulted.
    pub fn memory_trap(bytes: u8) -> (r: HaltReason)
        ensures
            r == Self::spec_memory_trap(bytes),
            r.code != 0,
    {
        HaltReason { code: MEMORY_TRAP + bytes as u32 }
    }
}

/// A memory operation as compiled code stores it.
pub open spec fn spec_mem_op_code(op: MemOp) -> u8 {
    match op {
        MemOp::Load => 0,
        MemOp::Store => 1,
        MemOp::Rwm => 2,
    }
}

/// A memory operation as compiled code stores it.
pub fn mem_op_code(op: MemOp) -> (r: u8)
    ensures
        r == spec_mem_op_code(op),
{
    match op {
        MemOp::Load => 0,
        MemOp::Store => 1,
        MemOp::Rwm => 2,
    }
}

/// The pointer to a page as compiled code finds it in the TLB: the page's host
/// address, whose low bits are free, with the page's flags as tags.
pub fn tagged_page_ptr(page: u64, flags: MemFlags) -> (r: u64)
    requires
        page % 32 == 0,
    ensures
        r & !(TAG_ALL as u64) == page,
        (r & (TAG_READ as u64) != 0) == flags.read,
        (r & (TAG_WRITE as u64) != 0) == flags.write,
        (r & (TAG_EXECUTE as u64) != 0) == flags.execute,
        (r & (TAG_COW as u64) != 0) == flags.cow,
        (r & (TAG_DMA_DEV as u64) != 0) == flags.dma_dev,
        (r & (TAG_MUST_DIRTY as u64) != 0) == flags.spec_must_dirty(),
{
    let read: u64 = if flags.read {
        TAG_READ as u64
    } else {
        0
    };
    let write: u64 = if flags.write {
        TAG_WRITE as u64
    } else {
        0
    };
    let execute: u64 = if flags.execute {
        TAG_EXECUTE as u64
    } else {
        0
    };
    let cow: u64 = if flags.cow {
        TAG_COW as u64
    } else {
        0
    };
    let dma_dev: u64 = if flags.dma_dev {
        TAG_DMA_DEV as u64
    } else {
        0
    };
    let tagged: u64 = page | read | write | execute | cow | dma_dev;
    assert(tagged & !31u64 == page && (tagged & 1 != 0) == (read != 0) && (tagged & 2 != 0) == (write
        != 0) && (tagged & 4 != 0) == (execute != 0) && (tagged & 8 != 0) == (cow != 0) && (tagged & 16
        != 0) == (dma_dev != 0) && (tagged & 20 != 0) == (execute != 0 || dma_dev != 0)) by (bit_vector)
        requires
            page % 32 == 0,
            read == 0 || read == 1,
            write == 0 || write == 2,
            execute == 0 || execute == 4,
            cow == 0 || cow == 8,
            dma_dev == 0 || dma_dev == 16,
            tagged == page | read | write | execute | cow | dma_dev,
    ;
    tagged
}

/// Where an X register stands in the guest CPU's state.
pub open spec fn spec_x_reg_offset(x_reg: u8) -> usize {
    (X_REGISTERS_OFFSET + x_reg * 8) as usize
}

/// Where an X register stands in the guest CPU's state.
pub fn x_reg_offset(x_reg: u8) -> (r: usize)
    requires
        x_reg < X_REGISTER_COUNT,
    ensures
        r == spec_x_reg_offset(x_reg),
{
    X_REGISTERS_OFFSET + x_reg as usize * 8
}

} // verus!
