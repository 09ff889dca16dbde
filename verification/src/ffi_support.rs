//! The fallbacks that compiled code calls for guest memory accesses it
//! cannot make itself.
use vstd::prelude::*;
use crate::access::{
    allows, byte_at, bytes_at, lemma_resolved, only_memory_changed, same_pages,
};
use crate::cpu_fabric::CpuFabric;
use crate::exclusive_monitor::{
    bucket_of, consume, intact, reserve, ExclusiveMonitorLoad, HostPointer, Reservation, Version,
};
use crate::exec_context::{ExecContext, MemOp};
use crate::fault::{gp, MemoryFault};
use crate::icache::ICache;
use crate::io_mmu::IoMMU;
use crate::lookup_cache::LookupCache;
use crate::memops::{
    le_value, lemma_le_value_bound, lemma_pow256_values, load16_le_aligned, load32_le_aligned,
    load64_le_aligned, pow256, to_le, window,
};
use crate::memory::{offset_of, page_of, MemProt, Page};
use crate::page_store::StoreView;
use crate::page_table::{resolve, PageEntry};
use crate::scalar::{lemma_stored, scalar_fault, store_scalar, write_scalar};

verus! {

/// Whether a guest memory access went through.
#[derive(Clone, Copy, PartialEq, Eq, Structural, Debug)]
pub enum IoMmuStatus {
    Done,
    Fault,
}

/// What became of an exclusive store.
#[derive(Clone, Copy, PartialEq, Eq, Structural, Debug)]
pub enum StrexStatus {
    Stored,
    Failed,
    Fault,
}

impl IoMmuStatus {
    pub open spec fn spec_code(self) -> u8 {
        match self {
            IoMmuStatus::Done => 0,
            IoMmuStatus::Fault => 1,
        }
    }

    /// The status as compiled code sees it.
    pub fn code(self) -> (r: u8)
        ensures
            r == self.spec_code(),
    {
        match self {
            IoMmuStatus::Done => 0,
            IoMmuStatus::Fault => 1,
        }
    }
}

impl StrexStatus {
    pub open spec fn spec_code(self) -> u8 {
        match self {
            StrexStatus::Stored => 0,
            StrexStatus::Failed => 1,
            StrexStatus::Fault => 255,
        }
    }

    /// The status as compiled code sees it.
    pub fn code(self) -> (r: u8)
        ensures
            r == self.spec_code(),
    {
        match self {
            StrexStatus::Stored => 0,
            StrexStatus::Failed => 1,
            StrexStatus::Fault => 255,
        }
    }
}

/// What a load fallback does: if the access `faults`, the status says so and
/// a fault at `addr` is pending; the reservation stays either way.
pub open spec fn load_fallback(
    faults: bool,
    addr: u64,
    value: nat,
    out_before: nat,
    out_after: nat,
    before: ExecContext,
    after: ExecContext,
    r: IoMmuStatus,
) -> bool {
    &&& after.exclusive_monitor_reservation == before.exclusive_monitor_reservation
    &&& if faults {
        &&& r == IoMmuStatus::Fault
        &&& out_after == out_before
        &&& after.current_mem_fault.pending() == Some((gp(addr), MemOp::Load))
    } else {
        &&& r == IoMmuStatus::Done
        &&& out_after == value
        &&& after.current_mem_fault == before.current_mem_fault
    }
}

/// What a store fallback does: a store that faults leaves a fault at `addr`
/// pending, and memory as it was.
pub open spec fn store_fallback(
    a: StoreView,
    b: StoreView,
    table: Map<u64, PageEntry>,
    addr: u64,
    data: Seq<u8>,
    before: ExecContext,
    after: ExecContext,
    r: IoMmuStatus,
) -> bool {
    &&& after.exclusive_monitor_reservation == before.exclusive_monitor_reservation
    &&& match scalar_fault(a, table, addr, data.len() as int, MemProt::spec_write()) {
        Some(_) => {
            &&& r == IoMmuStatus::Fault
            &&& b == a
            &&& after.current_mem_fault.pending() == Some((gp(addr), MemOp::Store))
        },
        None => {
            &&& r == IoMmuStatus::Done
            &&& b == store_scalar(a, table, addr as int, data)
            &&& after.current_mem_fault == before.current_mem_fault
        },
    }
}

/// The fault as compiled code reports it: at the address of the access, also
/// where the MMU found it elsewhere in the pages of the access.
fn reported_at(addr: u64, fault: MemoryFault) -> (r: MemoryFault)
    ensures
        r == (MemoryFault { vaddr: addr, reason: fault.reason }),
{
    MemoryFault { vaddr: addr, reason: fault.into_reason() }
}

/// Loads a 64-bit scalar for compiled code.
pub fn load64_le<T: ICache, C: LookupCache>(
    io_mmu: &IoMMU,
    fabric: &CpuFabric<T>,
    tlb: &mut C,
    context: &mut ExecContext,
    addr: u64,
    out: &mut u64,
) -> (r: IoMmuStatus)
    requires
        io_mmu.wf(*fabric),
        old(tlb).consistent(*io_mmu, fabric.store@),
    ensures
        final(tlb).consistent(*io_mmu, fabric.store@),
        load_fallback(
            scalar_fault(fabric.store@, io_mmu.table@, addr, 8, MemProt::spec_read()) is Some,
            addr,
            le_value(bytes_at(fabric.store@, io_mmu.table@, addr as int, 8)),
            *old(out) as nat,
            *final(out) as nat,
            *old(context),
            *final(context),
            r,
        ),
{
    match io_mmu.load64_le(fabric, tlb, addr) {
        Ok(value) => {
            *out = value;
            IoMmuStatus::Done
        },
        Err(fault) => {
            context.current_mem_fault.set_fault(MemOp::Load, reported_at(addr, fault));
            IoMmuStatus::Fault
        },
    }
}

/// Stores a 64-bit scalar for compiled code.
pub fn store64_le<T: ICache, C: LookupCache>(
    io_mmu: &IoMMU,
    fabric: &mut CpuFabric<T>,
    tlb: &mut C,
    context: &mut ExecContext,
    addr: u64,
    value: u64,
) -> (r: IoMmuStatus)
    requires
        io_mmu.wf(*old(fabric)),
        old(tlb).consistent(*io_mmu, old(fabric).store@),
    ensures
        io_mmu.wf(*final(fabric)),
        final(tlb).consistent(*io_mmu, final(fabric).store@),
        only_memory_changed(*old(fabric), *final(fabric)),
        store_fallback(
            old(fabric).store@,
            final(fabric).store@,
            io_mmu.table@,
            addr,
            to_le(value as nat, 8),
            *old(context),
            *final(context),
            r,
        ),
{
    match io_mmu.store64_le(fabric, tlb, addr, value) {
        Ok(()) => IoMmuStatus::Done,
        Err(fault) => {
            context.current_mem_fault.set_fault(MemOp::Store, reported_at(addr, fault));
            IoMmuStatus::Fault
        },
    }
}

/// Loads a 32-bit scalar for compiled code.
pub fn load32_le<T: ICache, C: LookupCache>(
    io_mmu: &IoMMU,
    fabric: &CpuFabric<T>,
    tlb: &mut C,
    context: &mut ExecContext,
    addr: u64,
    out: &mut u32,
) -> (r: IoMmuStatus)
    requires
        io_mmu.wf(*fabric),
        old(tlb).consistent(*io_mmu, fabric.store@),
    ensures
        final(tlb).consistent(*io_mmu, fabric.store@),
        load_fallback(
            scalar_fault(fabric.store@, io_mmu.table@, addr, 4, MemProt::spec_read()) is Some,
            addr,
            le_value(bytes_at(fabric.store@, io_mmu.table@, addr as int, 4)),
            *old(out) as nat,
            *final(out) as nat,
            *old(context),
            *final(context),
            r,
        ),
{
    match io_mmu.load32_le(fabric, tlb, addr) {
        Ok(value) => {
            *out = value;
            IoMmuStatus::Done
        },
        Err(fault) => {
            context.current_mem_fault.set_fault(MemOp::Load, reported_at(addr, fault));
            IoMmuStatus::Fault
        },
    }
}

/// Stores a 32-bit scalar for compiled code.
pub fn store32_le<T: ICache, C: LookupCache>(
    io_mmu: &IoMMU,
    fabric: &mut CpuFabric<T>,
    tlb: &mut C,
    context: &mut ExecContext,
    addr: u64,
    value: u32,
) -> (r: IoMmuStatus)
    requires
        io_mmu.wf(*old(fabric)),
        old(tlb).consistent(*io_mmu, old(fabric).store@),
    ensures
        io_mmu.wf(*final(fabric)),
        final(tlb).consistent(*io_mmu, final(fabric).store@),
        only_memory_changed(*old(fabric), *final(fabric)),
        store_fallback(
            old(fabric).store@,
            final(fabric).store@,
            io_mmu.table@,
            addr,
            to_le(value as nat, 4),
            *old(context),
            *final(context),
            r,
        ),
{
    match io_mmu.store32_le(fabric, tlb, addr, value) {
        Ok(()) => IoMmuStatus::Done,
        Err(fault) => {
            context.current_mem_fault.set_fault(MemOp::Store, reported_at(addr, fault));
            IoMmuStatus::Fault
        },
    }
}

/// Loads a 16-bit scalar for compiled code.
pub fn load16_le<T: ICache, C: LookupCache>(
    io_mmu: &IoMMU,
    fabric: &CpuFabric<T>,
    tlb: &mut C,
    context: &mut ExecContext,
    addr: u64,
    out: &mut u16,
) -> (r: IoMmuStatus)
    requires
        io_mmu.wf(*fabric),
        old(tlb).consistent(*io_mmu, fabric.store@),
    ensures
        final(tlb).consistent(*io_mmu, fabric.store@),
        load_fallback(
            scalar_fault(fabric.store@, io_mmu.table@, addr, 2, MemProt::spec_read()) is Some,
            addr,
            le_value(bytes_at(fabric.store@, io_mmu.table@, addr as int, 2)),
            *old(out) as nat,
            *final(out) as nat,
            *old(context),
            *final(context),
            r,
        ),
{
    match io_mmu.load16_le(fabric, tlb, addr) {
        Ok(value) => {
            *out = value;
            IoMmuStatus::Done
        },
        Err(fault) => {
            context.current_mem_fault.set_fault(MemOp::Load, reported_at(addr, fault));
            IoMmuStatus::Fault
        },
    }
}

/// Stores a 16-bit scalar for compiled code.
pub fn store16_le<T: ICache, C: LookupCache>(
    io_mmu: &IoMMU,
    fabric: &mut CpuFabric<T>,
    tlb: &mut C,
    context: &mut ExecContext,
    addr: u64,
    value: u16,
) -> (r: IoMmuStatus)
    requires
        io_mmu.wf(*old(fabric)),
        old(tlb).consistent(*io_mmu, old(fabric).store@),
    ensures
        io_mmu.wf(*final(fabric)),
        final(tlb).consistent(*io_mmu, final(fabric).store@),
        only_memory_changed(*old(fabric), *final(fabric)),
        store_fallback(
            old(fabric).store@,
            final(fabric).store@,
            io_mmu.table@,
            addr,
            to_le(value as nat, 2),
            *old(context),
            *final(context),
            r,
        ),
{
    match io_mmu.store16_le(fabric, tlb, addr, value) {
        Ok(()) => IoMmuStatus::Done,
        Err(fault) => {
            context.current_mem_fault.set_fault(MemOp::Store, reported_at(addr, fault));
            IoMmuStatus::Fault
        },
    }
}

/// Loads a byte for compiled code.
pub fn load_byte<T: ICache, C: LookupCache>(
    io_mmu: &IoMMU,
    fabric: &CpuFabric<T>,
    tlb: &mut C,
    context: &mut ExecContext,
    addr: u64,
    out: &mut u8,
) -> (r: IoMmuStatus)
    requires
        io_mmu.wf(*fabric),
        old(tlb).consistent(*io_mmu, fabric.store@),
    ensures
        final(tlb).consistent(*io_mmu, fabric.store@),
        load_fallback(
            scalar_fault(fabric.store@, io_mmu.table@, addr, 1, MemProt::spec_read()) is Some,
            addr,
            byte_at(fabric.store@, io_mmu.table@, addr as int) as nat,
            *old(out) as nat,
            *final(out) as nat,
            *old(context),
            *final(context),
            r,
        ),
{
    match io_mmu.load_byte(fabric, tlb, addr) {
        Ok(value) => {
            *out = value;
            IoMmuStatus::Done
        },
        Err(fault) => {
            context.current_mem_fault.set_fault(MemOp::Load, reported_at(addr, fault));
            IoMmuStatus::Fault
        },
    }
}

/// Stores a byte for compiled code.
pub fn store_byte<T: ICache, C: LookupCache>(
    io_mmu: &IoMMU,
    fabric: &mut CpuFabric<T>,
    tlb: &mut C,
    context: &mut ExecContext,
    addr: u64,
    value: u8,
) -> (r: IoMmuStatus)
    requires
        io_mmu.wf(*old(fabric)),
        old(tlb).consistent(*io_mmu, old(fabric).store@),
    ensures
        io_mmu.wf(*final(fabric)),
        final(tlb).consistent(*io_mmu, final(fabric).store@),
        only_memory_changed(*old(fabric), *final(fabric)),
        store_fallback(
            old(fabric).store@,
            final(fabric).store@,
            io_mmu.table@,
            addr,
            seq![value],
            *old(context),
            *final(context),
            r,
        ),
{
    match io_mmu.store_byte(fabric, tlb, addr, value) {
        Ok(()) => IoMmuStatus::Done,
        Err(fault) => {
            context.current_mem_fault.set_fault(MemOp::Store, reported_at(addr, fault));
            IoMmuStatus::Fault
        },
    }
}

/// Drops the reservation.
pub fn clrex(context: &mut ExecContext)
    ensures
        final(context).exclusive_monitor_reservation is None,
        final(context).current_mem_fault == old(context).current_mem_fault,
{
    context.exclusive_monitor_reservation = None;
}

/// The host address of byte `offset` of host page `index`.
pub open spec fn host_address(index: usize, offset: int) -> u128 {
    (index * 4096 + offset) as u128
}

/// The host address of byte `offset` of a page.
pub fn host_pointer(page: Page, offset: usize) -> (r: HostPointer)
    requires
        offset < 4096,
    ensures
        r.addr == host_address(page.ptr.page.index, offset as int),
{
    HostPointer { addr: page.ptr.page.index as u128 * 4096 + offset as u128 }
}

/// Where an exclusive access of `n` bytes goes, unless it faults. Exclusive
/// accesses have to be aligned.
pub open spec fn exclusive_target(
    st: StoreView,
    table: Map<u64, PageEntry>,
    vaddr: u64,
    n: int,
    prot: MemProt,
) -> Option<HostPointer> {
    if vaddr as int % n != 0 {
        None
    } else {
        match resolve(st, table, page_of(vaddr as int)) {
            None => None,
            Some(page) => if !allows(page, Some(prot), false) {
                None
            } else {
                Some(
                    HostPointer {
                        addr: host_address(page.ptr.page.index, offset_of(vaddr as int)),
                    },
                )
            },
        }
    }
}

/// A number of `n` bytes, tagged with its width.
pub open spec fn tagged(n: int, value: nat) -> ExclusiveMonitorLoad {
    if n == 1 {
        ExclusiveMonitorLoad::U8(value as u8)
    } else if n == 2 {
        ExclusiveMonitorLoad::U16(value as u16)
    } else if n == 4 {
        ExclusiveMonitorLoad::U32(value as u32)
    } else {
        ExclusiveMonitorLoad::U64(value as u64)
    }
}

/// The version and the value of a reservation of `n` bytes, if there is one.
pub open spec fn reserved(reservation: Option<Reservation>, n: int) -> Option<(Version, nat)> {
    match reservation {
        Some(held) => match held.value {
            ExclusiveMonitorLoad::U8(value) => if n == 1 {
                Some((held.version, value as nat))
            } else {
                None
            },
            ExclusiveMonitorLoad::U16(value) => if n == 2 {
                Some((held.version, value as nat))
            } else {
                None
            },
            ExclusiveMonitorLoad::U32(value) => if n == 4 {
                Some((held.version, value as nat))
            } else {
                None
            },
            ExclusiveMonitorLoad::U64(value) => if n == 8 {
                Some((held.version, value as nat))
            } else {
                None
            },
            ExclusiveMonitorLoad::U128(value) => if n == 16 {
                Some((held.version, value as nat))
            } else {
                None
            },
        },
        None => None,
    }
}

/// If an exclusive store of `n` bytes at `vaddr` uses a reservation up, the
/// bucket of the exclusive monitor has a next version.
pub open spec fn version_left<T: ICache>(
    fabric: CpuFabric<T>,
    table: Map<u64, PageEntry>,
    reservation: Option<Reservation>,
    vaddr: u64,
    n: int,
) -> bool {
    match (
        reserved(reservation, n),
        exclusive_target(fabric.store@, table, vaddr, n, MemProt::spec_write()),
    ) {
        (Some((version, _)), Some(ptr)) => intact(
            fabric.exclusive_monitor.reservations@,
            ptr,
            version,
        ) ==> fabric.exclusive_monitor.has_version(ptr),
        _ => true,
    }
}

pub open spec fn exclusive_width(n: int) -> bool {
    n == 1 || n == 2 || n == 4 || n == 8
}

/// An aligned address is at an aligned place of its page.
proof fn lemma_offset_aligned(vaddr: int, n: int)
    requires
        exclusive_width(n),
        0 <= vaddr,
        vaddr % n == 0,
    ensures
        offset_of(vaddr) % n == 0,
{
    if n == 2 {
        assert(vaddr % 2 == 0);
    } else if n == 4 {
        assert(vaddr % 4 == 0);
    } else if n == 8 {
        assert(vaddr % 8 == 0);
    }
}

/// Resolves `vaddr` for an exclusive access of `n` bytes.
fn resolve_addr_exclusive<T: ICache, C: LookupCache>(
    io_mmu: &IoMMU,
    fabric: &CpuFabric<T>,
    tlb: &mut C,
    vaddr: u64,
    n: usize,
    prot: MemProt,
) -> (r: Result<(HostPointer, Page, usize), MemoryFault>)
    requires
        io_mmu.wf(*fabric),
        old(tlb).consistent(*io_mmu, fabric.store@),
        exclusive_width(n as int),
    ensures
        final(tlb).consistent(*io_mmu, fabric.store@),
        match exclusive_target(fabric.store@, io_mmu.table@, vaddr, n as int, prot) {
            Some(ptr) => r matches Ok((found, page, offset)) && found == ptr && Some(page)
                == resolve(fabric.store@, io_mmu.table@, page_of(vaddr as int)) && offset
                == offset_of(vaddr as int) && offset + n <= 4096 && offset as int % n as int == 0,
            None => r == Err::<(HostPointer, Page, usize), MemoryFault>(gp(vaddr)),
        },
{
    match io_mmu.resolve_aligned_scalar_access(fabric, tlb, vaddr, n) {
        Ok((page, offset)) => {
            if !page.ptr.flags.contains_any(prot) {
                return Err(MemoryFault::general_protection(vaddr));
            }
            assert(offset as int % n as int == 0) by {
                lemma_offset_aligned(vaddr as int, n as int);
            }
            Ok((host_pointer(page, offset), page, offset))
        },
        Err(fault) => Err(reported_at(vaddr, fault)),
    }
}

/// Reads the `n`-byte number at the aligned `offset` of a page.
fn read_number(page: &Vec<u8>, offset: usize, n: usize) -> (r: u64)
    requires
        exclusive_width(n as int),
        offset as int % n as int == 0,
        offset + n <= page.len(),
    ensures
        r == le_value(window(page@, offset as int, n as int)),
        r < pow256(n as nat),
{
    proof {
        lemma_le_value_bound(window(page@, offset as int, n as int));
    }
    match n {
        1 => {
            proof {
                reveal_with_fuel(le_value, 2);
            }
            crate::memops::load_byte(page, offset) as u64
        },
        2 => load16_le_aligned(page, offset) as u64,
        4 => load32_le_aligned(page, offset) as u64,
        _ => load64_le_aligned(page, offset),
    }
}

/// An exclusive load of `n` bytes: reserves the address and gives the value
/// that was there.
fn exclusive_load<T: ICache, C: LookupCache>(
    io_mmu: &IoMMU,
    fabric: &mut CpuFabric<T>,
    tlb: &mut C,
    context: &mut ExecContext,
    vaddr: u64,
    n: usize,
) -> (r: Option<u64>)
    requires
        io_mmu.wf(*old(fabric)),
        old(tlb).consistent(*io_mmu, old(fabric).store@),
        exclusive_width(n as int),
    ensures
        io_mmu.wf(*final(fabric)),
        final(tlb).consistent(*io_mmu, final(fabric).store@),
        exclusive_loaded(
            io_mmu.table@,
            *old(fabric),
            *final(fabric),
            *old(context),
            *final(context),
            vaddr,
            n as nat,
            r,
        ),
        r matches Some(value) ==> value < pow256(n as nat),
{
    let ghost st = fabric.store@;
    let read = MemProt::new(true, false, false);
    let (ptr, page, offset) = match resolve_addr_exclusive(io_mmu, fabric, tlb, vaddr, n, read) {
        Ok(found) => found,
        Err(fault) => {
            context.current_mem_fault.set_fault(MemOp::Load, fault);
            return None;
        },
    };
    proof {
        lemma_resolved(st, io_mmu.table.space@, io_mmu.table@, page_of(vaddr as int));
        lemma_pow256_values();
    }
    let bytes: &Vec<u8> = &fabric.store.host[page.ptr.page.index].bytes;
    assert(bytes.len() == bytes@.len());
    let value: u64 = read_number(bytes, offset, n);
    assert(window(bytes@, offset as int, n as int) =~= bytes_at(
        st,
        io_mmu.table@,
        vaddr as int,
        n as nat,
    ));
    let load = match n {
        1 => ExclusiveMonitorLoad::U8(value as u8),
        2 => ExclusiveMonitorLoad::U16(value as u16),
        4 => ExclusiveMonitorLoad::U32(value as u32),
        _ => ExclusiveMonitorLoad::U64(value),
    };
    let load_op = || -> (v: ExclusiveMonitorLoad)
        ensures
            v == load,
    {
        load
    };
    let reservation: Reservation = fabric.exclusive_monitor.ldrex(ptr, load_op);
    context.exclusive_monitor_reservation = Some(reservation);
    Some(value)
}

/// What an exclusive load does and returns.
pub open spec fn exclusive_loaded<T: ICache>(
    table: Map<u64, PageEntry>,
    fa: CpuFabric<T>,
    fb: CpuFabric<T>,
    before: ExecContext,
    after: ExecContext,
    vaddr: u64,
    n: nat,
    r: Option<u64>,
) -> bool {
    let slots = fa.exclusive_monitor.reservations@;
    &&& fb.store@ == fa.store@
    &&& fb.instruction_cache == fa.instruction_cache
    &&& fb.object_manager == fa.object_manager
    &&& fb.next_token == fa.next_token
    &&& fb.spaces == fa.spaces
    &&& match exclusive_target(fa.store@, table, vaddr, n as int, MemProt::spec_read()) {
        Some(ptr) => {
            let value = le_value(bytes_at(fa.store@, table, vaddr as int, n));
            &&& r == Some(value as u64)
            &&& fb.exclusive_monitor.reservations@ == reserve(slots, ptr)
            &&& after.exclusive_monitor_reservation == Some(
                Reservation {
                    version: slots[bucket_of(ptr)].version,
                    value: tagged(n as int, value),
                },
            )
            &&& after.current_mem_fault == before.current_mem_fault
        },
        None => {
            &&& r is None
            &&& fb.exclusive_monitor.reservations@ == slots
            &&& after.exclusive_monitor_reservation == before.exclusive_monitor_reservation
            &&& after.current_mem_fault.pending() == Some((gp(vaddr), MemOp::Load))
        },
    }
}

/// An exclusive store of the `n` low bytes of `value`, given the reservation
/// `version` and the value `expected` that was loaded with it. The caller has
/// taken the reservation out of the context.
fn exclusive_store<T: ICache, C: LookupCache>(
    io_mmu: &IoMMU,
    fabric: &mut CpuFabric<T>,
    tlb: &mut C,
    context: &mut ExecContext,
    vaddr: u64,
    value: u64,
    n: usize,
    version: Version,
    expected: u64,
) -> (r: StrexStatus)
    requires
        io_mmu.wf(*old(fabric)),
        old(tlb).consistent(*io_mmu, old(fabric).store@),
        exclusive_width(n as int),
        value < pow256(n as nat),
        exclusive_target(
            old(fabric).store@,
            io_mmu.table@,
            vaddr,
            n as int,
            MemProt::spec_write(),
        ) matches Some(ptr) ==> (intact(
            old(fabric).exclusive_monitor.reservations@,
            ptr,
            version,
        ) ==> old(fabric).exclusive_monitor.has_version(ptr)),
        old(context).exclusive_monitor_reservation is None,
    ensures
        io_mmu.wf(*final(fabric)),
        final(tlb).consistent(*io_mmu, final(fabric).store@),
        final(context).exclusive_monitor_reservation is None,
        exclusive_stored(
            io_mmu.table@,
            *old(fabric),
            *final(fabric),
            *old(context),
            *final(context),
            vaddr,
            to_le(value as nat, n as nat),
            version,
            expected as nat,
            r,
        ),
{
    let ghost a = fabric.store@;
    let ghost table = io_mmu.table@;
    let write = MemProt::new(false, true, false);
    let (ptr, page, offset) = match resolve_addr_exclusive(io_mmu, fabric, tlb, vaddr, n, write) {
        Ok(found) => found,
        Err(fault) => {
            context.current_mem_fault.set_fault(MemOp::Store, fault);
            return StrexStatus::Fault;
        },
    };
    proof {
        lemma_resolved(a, io_mmu.table.space@, table, page_of(vaddr as int));
    }
    if !fabric.exclusive_monitor.claim(ptr, version) {
        return StrexStatus::Failed;
    }
    let h: usize = page.ptr.page.index;
    let bytes: &Vec<u8> = &fabric.store.host[h].bytes;
    assert(bytes.len() == bytes@.len());
    let current: u64 = read_number(bytes, offset, n);
    assert(window(bytes@, offset as int, n as int) =~= bytes_at(
        a,
        table,
        vaddr as int,
        n as nat,
    ));
    if current != expected {
        return StrexStatus::Failed;
    }
    write_scalar(&mut fabric.store, h, offset, value, n);
    fabric.store.mark_dirty(page);
    proof {
        lemma_stored(
            a,
            fabric.store@,
            io_mmu.table.space@,
            table,
            fabric.spaces@,
        );
        tlb.lemma_consistent(*io_mmu, a, fabric.store@);
    }
    StrexStatus::Stored
}

/// What an exclusive store with a reservation does and returns: the store
/// happens if the reservation is still intact and the memory still holds the
/// value that was loaded. It is a store like any other: a page whose stores
/// have to be recorded becomes dirty. An intact reservation is used up either
/// way.
pub open spec fn exclusive_stored<T: ICache>(
    table: Map<u64, PageEntry>,
    fa: CpuFabric<T>,
    fb: CpuFabric<T>,
    before: ExecContext,
    after: ExecContext,
    vaddr: u64,
    data: Seq<u8>,
    version: Version,
    expected: nat,
    r: StrexStatus,
) -> bool {
    let slots = fa.exclusive_monitor.reservations@;
    let n = data.len();
    &&& fb.instruction_cache == fa.instruction_cache
    &&& fb.object_manager == fa.object_manager
    &&& fb.next_token == fa.next_token
    &&& fb.spaces == fa.spaces
    &&& same_pages(fa.store@, fb.store@)
    &&& match exclusive_target(fa.store@, table, vaddr, n as int, MemProt::spec_write()) {
        None => {
            &&& r == StrexStatus::Fault
            &&& fb.store@ == fa.store@
            &&& fb.exclusive_monitor.reservations@ == slots
            &&& after.current_mem_fault.pending() == Some((gp(vaddr), MemOp::Store))
        },
        Some(ptr) => {
            &&& after.current_mem_fault == before.current_mem_fault
            &&& if !intact(slots, ptr, version) {
                &&& r == StrexStatus::Failed
                &&& fb.store@ == fa.store@
                &&& fb.exclusive_monitor.reservations@ == slots
            } else {
                &&& fb.exclusive_monitor.reservations@ == consume(slots, ptr)
                &&& if le_value(bytes_at(fa.store@, table, vaddr as int, n)) == expected {
                    &&& r == StrexStatus::Stored
                    &&& fb.store@ == store_scalar(fa.store@, table, vaddr as int, data)
                } else {
                    &&& r == StrexStatus::Failed
                    &&& fb.store@ == fa.store@
                }
            }
        },
    }
}

/// What an exclusive store does and returns: it takes the reservation of the
/// context, whatever comes of it, and fails without one, or with one of another
/// width.
pub open spec fn strex_outcome<T: ICache>(
    table: Map<u64, PageEntry>,
    fa: CpuFabric<T>,
    fb: CpuFabric<T>,
    before: ExecContext,
    after: ExecContext,
    vaddr: u64,
    data: Seq<u8>,
    r: StrexStatus,
) -> bool {
    &&& after.exclusive_monitor_reservation is None
    &&& match reserved(before.exclusive_monitor_reservation, data.len() as int) {
        Some((version, expected)) => exclusive_stored(
            table,
            fa,
            fb,
            before,
            after,
            vaddr,
            data,
            version,
            expected,
            r,
        ),
        None => {
            &&& r == StrexStatus::Failed
            &&& fb == fa
            &&& after.current_mem_fault == before.current_mem_fault
        },
    }
}

/// Without a reservation, as after `clrex`, an exclusive store fails: it traps
/// nowhere and changes nothing.
pub proof fn law_strex_needs_reservation<T: ICache>(
    table: Map<u64, PageEntry>,
    fa: CpuFabric<T>,
    fb: CpuFabric<T>,
    before: ExecContext,
    after: ExecContext,
    vaddr: u64,
    data: Seq<u8>,
    r: StrexStatus,
)
    requires
        before.exclusive_monitor_reservation is None,
        strex_outcome(table, fa, fb, before, after, vaddr, data, r),
    ensures
        r == StrexStatus::Failed,
        fb == fa,
        after.current_mem_fault == before.current_mem_fault,
        version_left(
            fa,
            table,
            before.exclusive_monitor_reservation,
            vaddr,
            data.len() as int,
        ),
{
}

/// An exclusive store right behind its exclusive load, with nothing in
/// between, gets through where the page may be written.
pub proof fn law_strex_after_ldrex<T: ICache>(
    table: Map<u64, PageEntry>,
    fa: CpuFabric<T>,
    fb: CpuFabric<T>,
    fc: CpuFabric<T>,
    before: ExecContext,
    between: ExecContext,
    after: ExecContext,
    vaddr: u64,
    data: Seq<u8>,
    loaded: u64,
    r: StrexStatus,
)
    requires
        fa.exclusive_monitor.wf(),
        exclusive_width(data.len() as int),
        exclusive_loaded(table, fa, fb, before, between, vaddr, data.len(), Some(loaded)),
        exclusive_target(fa.store@, table, vaddr, data.len() as int, MemProt::spec_write()) is Some,
        strex_outcome(table, fb, fc, between, after, vaddr, data, r),
    ensures
        r == StrexStatus::Stored,
        fc.store@ == store_scalar(fa.store@, table, vaddr as int, data),
        after.current_mem_fault == before.current_mem_fault,
{
    let n = data.len() as int;
    let bytes = bytes_at(fa.store@, table, vaddr as int, data.len());
    lemma_le_value_bound(bytes);
    lemma_pow256_values();
}

/// The 8-bit exclusive load.
pub fn ldrexb<T: ICache, C: LookupCache>(
    io_mmu: &IoMMU,
    fabric: &mut CpuFabric<T>,
    tlb: &mut C,
    context: &mut ExecContext,
    vaddr: u64,
    out: &mut u8,
) -> (r: IoMmuStatus)
    requires
        io_mmu.wf(*old(fabric)),
        old(tlb).consistent(*io_mmu, old(fabric).store@),
    ensures
        io_mmu.wf(*final(fabric)),
        final(tlb).consistent(*io_mmu, final(fabric).store@),
        r == IoMmuStatus::Fault ==> *final(out) == *old(out),
        exclusive_loaded(
            io_mmu.table@,
            *old(fabric),
            *final(fabric),
            *old(context),
            *final(context),
            vaddr,
            1,
            if r == IoMmuStatus::Done {
                Some(*final(out) as u64)
            } else {
                None
            },
        ),
{
    proof {
        lemma_pow256_values();
    }
    match exclusive_load(io_mmu, fabric, tlb, context, vaddr, 1) {
        Some(value) => {
            *out = value as u8;
            IoMmuStatus::Done
        },
        None => IoMmuStatus::Fault,
    }
}

/// The 8-bit exclusive store. It takes the reservation of the context,
/// whatever comes of it, and fails without one, or with one of another
/// width.
pub fn strexb<T: ICache, C: LookupCache>(
    io_mmu: &IoMMU,
    fabric: &mut CpuFabric<T>,
    tlb: &mut C,
    context: &mut ExecContext,
    vaddr: u64,
    value: u8,
) -> (r: StrexStatus)
    requires
        io_mmu.wf(*old(fabric)),
        old(tlb).consistent(*io_mmu, old(fabric).store@),
        version_left(
            *old(fabric),
            io_mmu.table@,
            old(context).exclusive_monitor_reservation,
            vaddr,
            1,
        ),
    ensures
        io_mmu.wf(*final(fabric)),
        final(tlb).consistent(*io_mmu, final(fabric).store@),
        strex_outcome(
            io_mmu.table@,
            *old(fabric),
            *final(fabric),
            *old(context),
            *final(context),
            vaddr,
            to_le(value as nat, 1),
            r,
        ),
{
    proof {
        lemma_pow256_values();
    }
    match context.exclusive_monitor_reservation.take() {
        Some(reservation) => match reservation.value {
            ExclusiveMonitorLoad::U8(expected) => exclusive_store(
                io_mmu,
                fabric,
                tlb,
                context,
                vaddr,
                value as u64,
                1,
                reservation.version,
                expected as u64,
            ),
            _ => StrexStatus::Failed,
        },
        None => StrexStatus::Failed,
    }
}

/// The 16-bit exclusive load.
pub fn ldrexh<T: ICache, C: LookupCache>(
    io_mmu: &IoMMU,
    fabric: &mut CpuFabric<T>,
    tlb: &mut C,
    context: &mut ExecContext,
    vaddr: u64,
    out: &mut u16,
) -> (r: IoMmuStatus)
    requires
        io_mmu.wf(*old(fabric)),
        old(tlb).consistent(*io_mmu, old(fabric).store@),
    ensures
        io_mmu.wf(*final(fabric)),
        final(tlb).consistent(*io_mmu, final(fabric).store@),
        r == IoMmuStatus::Fault ==> *final(out) == *old(out),
        exclusive_loaded(
            io_mmu.table@,
            *old(fabric),
            *final(fabric),
            *old(context),
            *final(context),
            vaddr,
            2,
            if r == IoMmuStatus::Done {
                Some(*final(out) as u64)
            } else {
                None
            },
        ),
{
    proof {
        lemma_pow256_values();
    }
    match exclusive_load(io_mmu, fabric, tlb, context, vaddr, 2) {
        Some(value) => {
            *out = value as u16;
            IoMmuStatus::Done
        },
        None => IoMmuStatus::Fault,
    }
}

/// The 16-bit exclusive store. It takes the reservation of the context,
/// whatever comes of it, and fails without one, or with one of another
/// width.
pub fn strexh<T: ICache, C: LookupCache>(
    io_mmu: &IoMMU,
    fabric: &mut CpuFabric<T>,
    tlb: &mut C,
    context: &mut ExecContext,
    vaddr: u64,
    value: u16,
) -> (r: StrexStatus)
    requires
        io_mmu.wf(*old(fabric)),
        old(tlb).consistent(*io_mmu, old(fabric).store@),
        version_left(
            *old(fabric),
            io_mmu.table@,
            old(context).exclusive_monitor_reservation,
            vaddr,
            2,
        ),
    ensures
        io_mmu.wf(*final(fabric)),
        final(tlb).consistent(*io_mmu, final(fabric).store@),
        strex_outcome(
            io_mmu.table@,
            *old(fabric),
            *final(fabric),
            *old(context),
            *final(context),
            vaddr,
            to_le(value as nat, 2),
            r,
        ),
{
    proof {
        lemma_pow256_values();
    }
    match context.exclusive_monitor_reservation.take() {
        Some(reservation) => match reservation.value {
            ExclusiveMonitorLoad::U16(expected) => exclusive_store(
                io_mmu,
                fabric,
                tlb,
                context,
                vaddr,
                value as u64,
                2,
                reservation.version,
                expected as u64,
            ),
            _ => StrexStatus::Failed,
        },
        None => StrexStatus::Failed,
    }
}

/// The 32-bit exclusive load.
pub fn ldrex<T: ICache, C: LookupCache>(
    io_mmu: &IoMMU,
    fabric: &mut CpuFabric<T>,
    tlb: &mut C,
    context: &mut ExecContext,
    vaddr: u64,
    out: &mut u32,
) -> (r: IoMmuStatus)
    requires
        io_mmu.wf(*old(fabric)),
        old(tlb).consistent(*io_mmu, old(fabric).store@),
    ensures
        io_mmu.wf(*final(fabric)),
        final(tlb).consistent(*io_mmu, final(fabric).store@),
        r == IoMmuStatus::Fault ==> *final(out) == *old(out),
        exclusive_loaded(
            io_mmu.table@,
            *old(fabric),
            *final(fabric),
            *old(context),
            *final(context),
            vaddr,
            4,
            if r == IoMmuStatus::Done {
                Some(*final(out) as u64)
            } else {
                None
            },
        ),
{
    proof {
        lemma_pow256_values();
    }
    match exclusive_load(io_mmu, fabric, tlb, context, vaddr, 4) {
        Some(value) => {
            *out = value as u32;
            IoMmuStatus::Done
        },
        None => IoMmuStatus::Fault,
    }
}

/// The 32-bit exclusive store. It takes the reservation of the context,
/// whatever comes of it, and fails without one, or with one of another
/// width.
pub fn strex<T: ICache, C: LookupCache>(
    io_mmu: &IoMMU,
    fabric: &mut CpuFabric<T>,
    tlb: &mut C,
    context: &mut ExecContext,
    vaddr: u64,
    value: u32,
) -> (r: StrexStatus)
    requires
        io_mmu.wf(*old(fabric)),
        old(tlb).consistent(*io_mmu, old(fabric).store@),
        version_left(
            *old(fabric),
            io_mmu.table@,
            old(context).exclusive_monitor_reservation,
            vaddr,
            4,
        ),
    ensures
        io_mmu.wf(*final(fabric)),
        final(tlb).consistent(*io_mmu, final(fabric).store@),
        strex_outcome(
            io_mmu.table@,
            *old(fabric),
            *final(fabric),
            *old(context),
            *final(context),
            vaddr,
            to_le(value as nat, 4),
            r,
        ),
{
    proof {
        lemma_pow256_values();
    }
    match context.exclusive_monitor_reservation.take() {
        Some(reservation) => match reservation.value {
            ExclusiveMonitorLoad::U32(expected) => exclusive_store(
                io_mmu,
                fabric,
                tlb,
                context,
                vaddr,
                value as u64,
                4,
                reservation.version,
                expected as u64,
            ),
            _ => StrexStatus::Failed,
        },
        None => StrexStatus::Failed,
    }
}

/// The 64-bit exclusive load.
pub fn ldrexd<T: ICache, C: LookupCache>(
    io_mmu: &IoMMU,
    fabric: &mut CpuFabric<T>,
    tlb: &mut C,
    context: &mut ExecContext,
    vaddr: u64,
    out: &mut u64,
) -> (r: IoMmuStatus)
    requires
        io_mmu.wf(*old(fabric)),
        old(tlb).consistent(*io_mmu, old(fabric).store@),
    ensures
        io_mmu.wf(*final(fabric)),
        final(tlb).consistent(*io_mmu, final(fabric).store@),
        r == IoMmuStatus::Fault ==> *final(out) == *old(out),
        exclusive_loaded(
            io_mmu.table@,
            *old(fabric),
            *final(fabric),
            *old(context),
            *final(context),
            vaddr,
            8,
            if r == IoMmuStatus::Done {
                Some(*final(out) as u64)
            } else {
                None
            },
        ),
{
    proof {
        lemma_pow256_values();
    }
    match exclusive_load(io_mmu, fabric, tlb, context, vaddr, 8) {
        Some(value) => {
            *out = value;
            IoMmuStatus::Done
        },
        None => IoMmuStatus::Fault,
    }
}

/// The 64-bit exclusive store. It takes the reservation of the context,
/// whatever comes of it, and fails without one, or with one of another
/// width.
pub fn strexd<T: ICache, C: LookupCache>(
    io_mmu: &IoMMU,
    fabric: &mut CpuFabric<T>,
    tlb: &mut C,
    context: &mut ExecContext,
    vaddr: u64,
    value: u64,
) -> (r: StrexStatus)
    requires
        io_mmu.wf(*old(fabric)),
        old(tlb).consistent(*io_mmu, old(fabric).store@),
        version_left(
            *old(fabric),
            io_mmu.table@,
            old(context).exclusive_monitor_reservation,
            vaddr,
            8,
        ),
    ensures
        io_mmu.wf(*final(fabric)),
        final(tlb).consistent(*io_mmu, final(fabric).store@),
        strex_outcome(
            io_mmu.table@,
            *old(fabric),
            *final(fabric),
            *old(context),
            *final(context),
            vaddr,
            to_le(value as nat, 8),
            r,
        ),
{
    proof {
        lemma_pow256_values();
    }
    match context.exclusive_monitor_reservation.take() {
        Some(reservation) => match reservation.value {
            ExclusiveMonitorLoad::U64(expected) => exclusive_store(
                io_mmu,
                fabric,
                tlb,
                context,
                vaddr,
                value,
                8,
                reservation.version,
                expected,
            ),
            _ => StrexStatus::Failed,
        },
        None => StrexStatus::Failed,
    }
}

} // verus!
