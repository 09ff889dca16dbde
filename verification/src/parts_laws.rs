//! The small parts: page numbers, protections, reservations, names and types.
use vstd::prelude::*;
use crate::compiler::{int_cmp_to_predicate, ir_type_to_llvm, to_cstr, LlvmPredicate, LlvmType};
use crate::exclusive_monitor::{
    reservation_index, ExclusiveMonitor, ExclusiveMonitorLoad, HostPointer, Reservation,
    ReservationSlot, Version,
};
use crate::ir::emit_laws::{bit_count, related};
use crate::ir::types::{IntCmp, IntWidth, TypeFull};
use crate::memory::{MemFlags, MemProt, PageNumber};

verus! {

/// An address is its page and its offset in it, and the page after a page
/// starts where the page ends.
pub proof fn law_page_numbers(
    vaddr: u64,
    r: (PageNumber, usize),
    base: u64,
    next: Option<PageNumber>,
)
    requires
        call_ensures(PageNumber::from_vaddr_with_offset, (vaddr,), r),
        call_ensures(PageNumber::vaddr_base, (r.0,), base),
        call_ensures(PageNumber::inc, (r.0,), next),
    ensures
        base % 4096 == 0,
        r.1 < 4096,
        base + r.1 == vaddr,
        next is None <==> base + 4096 == 0x1_0000_0000_0000_0000,
        next matches Some(page) ==> page.number * 4096 == base + 4096,
{
}

/// The flags of a plain page grant exactly its protections. An access that asks
/// for some permissions is granted if one of them is, and stores are noted for
/// executable pages and pages of shared objects.
pub proof fn law_flags(
    prot: MemProt,
    asked: MemProt,
    flags: MemFlags,
    plain: MemFlags,
    granted: bool,
    noted: bool,
)
    requires
        call_ensures(MemFlags::from_prot, (prot,), plain),
        call_ensures(MemFlags::contains_any, (flags, asked), granted),
        call_ensures(MemFlags::must_dirty, (flags,), noted),
    ensures
        plain.read == prot.read && plain.write == prot.write && plain.execute == prot.execute,
        !plain.cow && !plain.dma_dev,
        granted <==> (asked.read && flags.read) || (asked.write && flags.write) || (asked.execute
            && flags.execute),
        noted <==> flags.execute || flags.dma_dev,
{
}

/// Addresses of one cache line share a bucket.
pub proof fn law_line_shares_bucket(p: HostPointer, q: HostPointer, at_p: usize, at_q: usize)
    requires
        call_ensures(reservation_index, (p,), at_p),
        call_ensures(reservation_index, (q,), at_q),
        p.addr / 64 == q.addr / 64,
    ensures
        at_p == at_q,
        at_p < 257,
{
    let a = p.addr;
    let b = q.addr;
    assert(a >> 6u128 == b >> 6u128) by (bit_vector)
        requires
            a / 64 == b / 64,
    ;
}

/// A reservation lets one exclusive store through: a claim succeeds exactly
/// when the bucket of the address still holds this address at this version. It
/// then moves the bucket on to the next version, and touches no other bucket.
pub proof fn law_claim(
    monitor: &mut ExclusiveMonitor,
    ptr: HostPointer,
    version: Version,
    at: usize,
    r: bool,
)
    requires
        old(monitor).wf(),
        call_ensures(reservation_index, (ptr,), at),
        old(monitor).reservations@[at as int].version.number < u128::MAX,
        call_ensures(ExclusiveMonitor::claim, (monitor, ptr, version), r),
    ensures
        r <==> old(monitor).reservations@[at as int].ptr == Some(ptr)
            && old(monitor).reservations@[at as int].version == version,
        !r ==> final(monitor).reservations@ == old(monitor).reservations@,
        r ==> final(monitor).reservations@[at as int].version.number == version.number + 1,
        forall|i: int|
            0 <= i < 257 && i != at ==> #[trigger] final(monitor).reservations@[i] == old(
                monitor,
            ).reservations@[i],
{
}

/// An exclusive load reserves its address, and the reservation that it gives
/// can be claimed once: the second claim fails.
pub proof fn law_reserve_then_claim<F: FnOnce() -> ExclusiveMonitorLoad>(
    reserving: &mut ExclusiveMonitor,
    ptr: HostPointer,
    load_op: F,
    taken: Reservation,
    first: &mut ExclusiveMonitor,
    second: &mut ExclusiveMonitor,
    r1: bool,
    r2: bool,
    at: usize,
)
    requires
        old(reserving).wf(),
        call_ensures(reservation_index, (ptr,), at),
        old(reserving).reservations@[at as int].version.number < u128::MAX,
        call_ensures(ExclusiveMonitor::ldrex::<F>, (reserving, ptr, load_op), taken),
        *old(first) == *final(reserving),
        call_ensures(ExclusiveMonitor::claim, (first, ptr, taken.version), r1),
        *old(second) == *final(first),
        call_ensures(ExclusiveMonitor::claim, (second, ptr, taken.version), r2),
    ensures
        r1,
        !r2,
        load_op.ensures((), taken.value),
        forall|i: int|
            0 <= i < 257 && i != at ==> #[trigger] final(second).reservations@[i] == old(
                reserving,
            ).reservations@[i],
{
    let slots = old(reserving).reservations@;
    assert(final(reserving).reservations@[at as int] == (ReservationSlot {
        ptr: Some(ptr),
        version: slots[at as int].version,
    }));
    law_claim(first, ptr, taken.version, at, r1);
    assert forall|i: int| 0 <= i < 257 && i != at implies #[trigger] final(second).reservations@[i]
        == slots[i] by {
        assert(final(first).reservations@[i] == final(reserving).reservations@[i]);
        assert(final(reserving).reservations@[i] == slots[i]);
    }
}

/// A C string holds one zero byte, at its end. What stands before it is the
/// name up to its first zero byte, and nothing for a name without one.
pub proof fn law_c_string(name: &[u8], r: Vec<u8>)
    requires
        call_ensures(to_cstr, (name,), r),
    ensures
        r@.len() > 0,
        r@.last() == 0,
        forall|i: int| 0 <= i < r@.len() - 1 ==> #[trigger] r@[i] != 0,
        name@.contains(0) ==> r@.len() <= name@.len() && forall|i: int|
            0 <= i < r@.len() ==> #[trigger] r@[i] == name@[i],
        !name@.contains(0) ==> r@.len() == 1,
{
    if name@.contains(0) {
        lemma_before_nul(name@);
    }
}

proof fn lemma_before_nul(name: Seq<u8>)
    requires
        name.contains(0),
    ensures
        crate::compiler::before_nul(name).len() < name.len(),
        name[crate::compiler::before_nul(name).len() as int] == 0,
        forall|i: int|
            0 <= i < crate::compiler::before_nul(name).len() ==> #[trigger] crate::compiler::before_nul(
                name,
            )[i] == name[i] && name[i] != 0,
    decreases name.len(),
{
    if name[0] != 0 {
        let rest = name.skip(1);
        let k = name.index_of(0);
        assert(rest[k - 1] == 0);
        lemma_before_nul(rest);
        let r = crate::compiler::before_nul(name);
        assert forall|i: int| 0 <= i < r.len() implies #[trigger] r[i] == name[i] && name[i] != 0 by {
            if i > 0 {
                assert(r[i] == crate::compiler::before_nul(rest)[i - 1]);
                assert(rest[i - 1] == name[i]);
            }
        }
    }
}

/// LLVM's predicate for a comparison holds of the same numbers.
pub proof fn law_llvm_predicate(
    predicate: IntCmp,
    r: LlvmPredicate,
    width: IntWidth,
    a: u64,
    b: u64,
)
    requires
        call_ensures(int_cmp_to_predicate, (predicate,), r),
    ensures
        r.holds(width, a, b) == related(predicate, width, a, b),
{
}

/// LLVM's types have the bits of the values.
pub proof fn law_llvm_types(width: IntWidth, number: LlvmType, truth: LlvmType)
    requires
        call_ensures(ir_type_to_llvm, (TypeFull::Int(width),), number),
        call_ensures(ir_type_to_llvm, (TypeFull::Bool,), truth),
    ensures
        number == LlvmType::Int(bit_count(width) as u32),
        truth == LlvmType::Int(1),
{
}

} // verus!
