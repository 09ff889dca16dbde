//! What the callbacks of compiled code do to guest memory and to what is
//! remembered of faults and reservations.
use vstd::prelude::*;
use crate::access::bytes_at;
use crate::cpu_fabric::CpuFabric;
use crate::exec_context::{ExecContext, MemOp};
use crate::ffi_support::{
    clrex, exclusive_loaded, exclusive_target, law_strex_after_ldrex, ldrex, ldrexb, ldrexd, ldrexh,
    load16_le, load32_le, load64_le, load_byte, load_fallback, store16_le, store32_le, store64_le,
    store_byte, store_fallback, strex, strex_outcome, strexb, strexd, strexh, IoMmuStatus,
    StrexStatus,
};
use crate::guest_laws::{
    faults_at, lemma_bytes_seen, lemma_faults, lemma_guest, lemma_stored, may_load, may_store,
    page_at, seen_at, seen_number, stored,
};
use crate::icache::ICache;
use crate::io_mmu::IoMMU;
use crate::lookup_cache::LookupCache;
use crate::memops::{
    le_value, lemma_le2, lemma_le4, lemma_le8, lemma_le_value_of_to_le, lemma_pow256_values, pow256,
    to_le,
};
use crate::memory::MemProt;
use crate::page_store::StoreView;
use crate::page_table::{table_wf, PageEntry};
use crate::scalar::store_scalar;

verus! {

/// The number of `n` bytes that the guest sees at `vaddr`.
pub open spec fn number_at(st: StoreView, table: Map<u64, PageEntry>, vaddr: int, n: int) -> int {
    if n == 1 {
        seen_at(st, table, vaddr)->0 as int
    } else {
        seen_number(st, table, vaddr, n)
    }
}

/// A general-protection fault at `addr` is remembered for the dispatcher.
pub open spec fn remembers(context: ExecContext, addr: u64, op: MemOp) -> bool {
    &&& context.current_mem_fault.was_real_memory_trap
    &&& context.current_mem_fault.vaddr == addr
    &&& context.current_mem_fault.mem_op == op
    &&& context.current_mem_fault.bus_error is None
}

/// A load for compiled code gives the number that the guest sees, and otherwise
/// leaves its result alone and remembers a fault at the address of the access.
pub open spec fn loaded_for(
    st: StoreView,
    table: Map<u64, PageEntry>,
    vaddr: u64,
    n: int,
    out_before: int,
    out_after: int,
    before: ExecContext,
    after: ExecContext,
    r: IoMmuStatus,
) -> bool {
    &&& after.exclusive_monitor_reservation == before.exclusive_monitor_reservation
    &&& if faults_at(st, table, vaddr as int, n, false) is Some {
        r == IoMmuStatus::Fault && out_after == out_before && remembers(after, vaddr, MemOp::Load)
    } else {
        r == IoMmuStatus::Done && out_after == number_at(st, table, vaddr as int, n)
            && after.current_mem_fault == before.current_mem_fault
    }
}

proof fn lemma_pending(context: ExecContext, addr: u64, op: MemOp)
    requires
        context.current_mem_fault.pending() == Some((crate::fault::gp(addr), op)),
    ensures
        remembers(context, addr, op),
{
}

pub(crate) proof fn lemma_number(st: StoreView, table: Map<u64, PageEntry>, vaddr: u64, n: int)
    requires
        n == 1 || n == 2 || n == 4 || n == 8,
        faults_at(st, table, vaddr as int, n, false) is None,
    ensures
        le_value(bytes_at(st, table, vaddr as int, n as nat)) == number_at(
            st,
            table,
            vaddr as int,
            n,
        ),
{
    let bytes = bytes_at(st, table, vaddr as int, n as nat);
    lemma_bytes_seen(st, table, vaddr, n);
    if n == 1 {
        reveal_with_fuel(le_value, 2);
        assert(seen_at(st, table, vaddr + 0) == Some(bytes[0]));
    } else if n == 2 {
        lemma_le2(bytes);
    } else if n == 4 {
        lemma_le4(bytes);
    } else {
        lemma_le8(bytes);
    }
}

proof fn lemma_loaded_for(
    st: StoreView,
    table: Map<u64, PageEntry>,
    vaddr: u64,
    n: int,
    value: nat,
    out_before: nat,
    out_after: nat,
    before: ExecContext,
    after: ExecContext,
    r: IoMmuStatus,
)
    requires
        n == 1 || n == 2 || n == 4 || n == 8,
        value == (if n == 1 {
            crate::access::byte_at(st, table, vaddr as int) as nat
        } else {
            le_value(bytes_at(st, table, vaddr as int, n as nat))
        }),
        load_fallback(
            crate::scalar::scalar_fault(st, table, vaddr, n, MemProt::spec_read()) is Some,
            vaddr,
            value,
            out_before,
            out_after,
            before,
            after,
            r,
        ),
    ensures
        loaded_for(
            st,
            table,
            vaddr,
            n,
            out_before as int,
            out_after as int,
            before,
            after,
            r,
        ),
{
    lemma_faults(st, table, vaddr, n, false);
    if faults_at(st, table, vaddr as int, n, false) is Some {
        lemma_pending(after, vaddr, MemOp::Load);
    } else {
        lemma_number(st, table, vaddr, n);
        lemma_guest(st, table, vaddr as int);
    }
}

/// A store for compiled code leaves its number behind, and otherwise changes
/// nothing but that a fault at the address of the access is remembered.
pub open spec fn stored_for(
    a: StoreView,
    b: StoreView,
    table: Map<u64, PageEntry>,
    vaddr: u64,
    n: int,
    value: int,
    before: ExecContext,
    after: ExecContext,
    r: IoMmuStatus,
) -> bool {
    &&& after.exclusive_monitor_reservation == before.exclusive_monitor_reservation
    &&& if faults_at(a, table, vaddr as int, n, true) is Some {
        r == IoMmuStatus::Fault && b == a && remembers(after, vaddr, MemOp::Store)
    } else {
        &&& r == IoMmuStatus::Done
        &&& after.current_mem_fault == before.current_mem_fault
        &&& left_behind(a, b, table, vaddr, n, value)
    }
}

/// A store of a number of `n` bytes at `vaddr` took place.
pub open spec fn left_behind(
    a: StoreView,
    b: StoreView,
    table: Map<u64, PageEntry>,
    vaddr: u64,
    n: int,
    value: int,
) -> bool {
    &&& number_at(b, table, vaddr as int, n) == value
    &&& exists|data: Seq<u8>|
        data.len() == n && #[trigger] stored(a, b, table, vaddr as int, data)
}

pub(crate) proof fn lemma_left_behind(
    a: StoreView,
    space: nat,
    table: Map<u64, PageEntry>,
    vaddr: u64,
    n: int,
    value: u64,
)
    requires
        n == 1 || n == 2 || n == 4 || n == 8,
        a.wf(),
        table_wf(a, space, table),
        value < pow256(n as nat),
        faults_at(a, table, vaddr as int, n, true) is None,
    ensures
        left_behind(
            a,
            store_scalar(a, table, vaddr as int, to_le(value as nat, n as nat)),
            table,
            vaddr,
            n,
            value as int,
        ),
{
    let data = to_le(value as nat, n as nat);
    let b = store_scalar(a, table, vaddr as int, data);
    lemma_stored(a, space, table, vaddr, data);
    lemma_le_value_of_to_le(value as nat, n as nat);
    assert(stored(a, b, table, vaddr as int, data));
    assert forall|i: int| 0 <= i < n implies seen_at(b, table, vaddr + i) == Some(
        #[trigger] data[i],
    ) by {}
    if n == 1 {
        reveal_with_fuel(le_value, 2);
        assert(seen_at(b, table, vaddr + 0) == Some(data[0]));
    } else if n == 2 {
        lemma_le2(data);
    } else if n == 4 {
        lemma_le4(data);
    } else {
        lemma_le8(data);
    }
}

proof fn lemma_stored_for(
    a: StoreView,
    b: StoreView,
    space: nat,
    table: Map<u64, PageEntry>,
    vaddr: u64,
    n: int,
    value: u64,
    before: ExecContext,
    after: ExecContext,
    r: IoMmuStatus,
)
    requires
        n == 1 || n == 2 || n == 4 || n == 8,
        a.wf(),
        table_wf(a, space, table),
        value < pow256(n as nat),
        store_fallback(a, b, table, vaddr, to_le(value as nat, n as nat), before, after, r),
    ensures
        stored_for(a, b, table, vaddr, n, value as int, before, after, r),
{
    lemma_faults(a, table, vaddr, n, true);
    if faults_at(a, table, vaddr as int, n, true) is Some {
        lemma_pending(after, vaddr, MemOp::Store);
    } else {
        lemma_left_behind(a, space, table, vaddr, n, value);
    }
}

/// An exclusive access of `n` bytes may be made at `vaddr`.
pub open spec fn open_exclusively(
    st: StoreView,
    table: Map<u64, PageEntry>,
    vaddr: u64,
    n: int,
    store: bool,
) -> bool {
    &&& vaddr as int % n == 0
    &&& page_at(st, table, vaddr as int) is Some
    &&& if store {
        may_store(table, vaddr as int)
    } else {
        may_load(table, vaddr as int)
    }
}

proof fn lemma_exclusive(st: StoreView, table: Map<u64, PageEntry>, vaddr: u64, n: int, store: bool)
    requires
        n == 1 || n == 2 || n == 4 || n == 8,
    ensures
        open_exclusively(st, table, vaddr, n, store) <==> exclusive_target(
            st,
            table,
            vaddr,
            n,
            if store {
                MemProt::spec_write()
            } else {
                MemProt::spec_read()
            },
        ) is Some,
        open_exclusively(st, table, vaddr, n, store) ==> faults_at(
            st,
            table,
            vaddr as int,
            n,
            store,
        ) is None,
{
    lemma_guest(st, table, vaddr as int);
    if open_exclusively(st, table, vaddr, n, store) {
        let last = vaddr + n - 1;
        assert(last / 4096 == vaddr as int / 4096);
        lemma_guest(st, table, last);
    }
}

/// An exclusive load gives the number that the guest sees at an aligned address
/// that may be loaded from, and leaves memory alone.
pub open spec fn loaded_exclusively<T: ICache>(
    fa: CpuFabric<T>,
    fb: CpuFabric<T>,
    table: Map<u64, PageEntry>,
    vaddr: u64,
    n: int,
    value: int,
    before: ExecContext,
    after: ExecContext,
    r: IoMmuStatus,
) -> bool {
    &&& fb.store@ == fa.store@
    &&& if open_exclusively(fa.store@, table, vaddr, n, false) {
        &&& r == IoMmuStatus::Done
        &&& value == number_at(fa.store@, table, vaddr as int, n)
        &&& after.exclusive_monitor_reservation is Some
        &&& after.current_mem_fault == before.current_mem_fault
    } else {
        &&& r == IoMmuStatus::Fault
        &&& after.exclusive_monitor_reservation == before.exclusive_monitor_reservation
        &&& remembers(after, vaddr, MemOp::Load)
    }
}

proof fn lemma_loaded_exclusively<T: ICache>(
    fa: CpuFabric<T>,
    fb: CpuFabric<T>,
    table: Map<u64, PageEntry>,
    vaddr: u64,
    n: int,
    value: u64,
    before: ExecContext,
    after: ExecContext,
    r: IoMmuStatus,
)
    requires
        n == 1 || n == 2 || n == 4 || n == 8,
        exclusive_loaded(
            table,
            fa,
            fb,
            before,
            after,
            vaddr,
            n as nat,
            if r == IoMmuStatus::Done {
                Some(value)
            } else {
                None
            },
        ),
    ensures
        loaded_exclusively(fa, fb, table, vaddr, n, value as int, before, after, r),
{
    lemma_exclusive(fa.store@, table, vaddr, n, false);
    if open_exclusively(fa.store@, table, vaddr, n, false) {
        lemma_number(fa.store@, table, vaddr, n);
        lemma_pow256_values();
        crate::memops::lemma_le_value_bound(bytes_at(fa.store@, table, vaddr as int, n as nat));
    } else {
        lemma_pending(after, vaddr, MemOp::Load);
    }
}

proof fn lemma_exclusive_pair<T: ICache>(
    fa: CpuFabric<T>,
    fb: CpuFabric<T>,
    fc: CpuFabric<T>,
    mmu: IoMMU,
    vaddr: u64,
    n: int,
    out: u64,
    value: u64,
    before: ExecContext,
    between: ExecContext,
    after: ExecContext,
    r: IoMmuStatus,
    s: StrexStatus,
)
    requires
        n == 1 || n == 2 || n == 4 || n == 8,
        mmu.wf(fa),
        fa.exclusive_monitor.wf(),
        value < pow256(n as nat),
        open_exclusively(fa.store@, mmu.table@, vaddr, n, false),
        open_exclusively(fa.store@, mmu.table@, vaddr, n, true),
        exclusive_loaded(
            mmu.table@,
            fa,
            fb,
            before,
            between,
            vaddr,
            n as nat,
            if r == IoMmuStatus::Done {
                Some(out)
            } else {
                None
            },
        ),
        strex_outcome(
            mmu.table@,
            fb,
            fc,
            between,
            after,
            vaddr,
            to_le(value as nat, n as nat),
            s,
        ),
    ensures
        s == StrexStatus::Stored,
        left_behind(fa.store@, fc.store@, mmu.table@, vaddr, n, value as int),
        after.exclusive_monitor_reservation is None,
{
    let table = mmu.table@;
    lemma_exclusive(fa.store@, table, vaddr, n, false);
    lemma_exclusive(fa.store@, table, vaddr, n, true);
    law_strex_after_ldrex(
        table,
        fa,
        fb,
        fc,
        before,
        between,
        after,
        vaddr,
        to_le(value as nat, n as nat),
        out,
        s,
    );
    lemma_left_behind(fa.store@, mmu.table.space@, table, vaddr, n, value);
}

proof fn lemma_exclusive_conflict<T: ICache>(
    fa: CpuFabric<T>,
    fb: CpuFabric<T>,
    fc: CpuFabric<T>,
    fd: CpuFabric<T>,
    table: Map<u64, PageEntry>,
    vaddr: u64,
    n: int,
    out: u64,
    value: u64,
    before: ExecContext,
    between: ExecContext,
    after: ExecContext,
    r: IoMmuStatus,
    s: StrexStatus,
)
    requires
        n == 1 || n == 2 || n == 4 || n == 8,
        open_exclusively(fa.store@, table, vaddr, n, false),
        exclusive_loaded(
            table,
            fa,
            fb,
            before,
            between,
            vaddr,
            n as nat,
            if r == IoMmuStatus::Done {
                Some(out)
            } else {
                None
            },
        ),
        faults_at(fc.store@, table, vaddr as int, n, false) is None,
        number_at(fc.store@, table, vaddr as int, n) != number_at(
            fa.store@,
            table,
            vaddr as int,
            n,
        ),
        strex_outcome(
            table,
            fc,
            fd,
            between,
            after,
            vaddr,
            to_le(value as nat, n as nat),
            s,
        ),
    ensures
        s != StrexStatus::Stored,
        fd.store@ == fc.store@,
{
    lemma_exclusive(fa.store@, table, vaddr, n, false);
    lemma_number(fa.store@, table, vaddr, n);
    lemma_number(fc.store@, table, vaddr, n);
    lemma_pow256_values();
    crate::memops::lemma_le_value_bound(bytes_at(fa.store@, table, vaddr as int, n as nat));
}

/// Loads for compiled code, of every width.
pub proof fn law_load_callbacks<T: ICache, C: LookupCache>(
    mmu: &IoMMU,
    fabric: &CpuFabric<T>,
    tlb: &mut C,
    context: &mut ExecContext,
    vaddr: u64,
    out8: &mut u8,
    out16: &mut u16,
    out32: &mut u32,
    out64: &mut u64,
    r: IoMmuStatus,
)
    ensures
        call_ensures(load_byte::<T, C>, (mmu, fabric, tlb, context, vaddr, out8), r) ==> loaded_for(
            fabric.store@,
            mmu.table@,
            vaddr,
            1,
            *old(out8) as int,
            *final(out8) as int,
            *old(context),
            *final(context),
            r,
        ),
        call_ensures(load16_le::<T, C>, (mmu, fabric, tlb, context, vaddr, out16), r) ==> loaded_for(
            fabric.store@,
            mmu.table@,
            vaddr,
            2,
            *old(out16) as int,
            *final(out16) as int,
            *old(context),
            *final(context),
            r,
        ),
        call_ensures(load32_le::<T, C>, (mmu, fabric, tlb, context, vaddr, out32), r) ==> loaded_for(
            fabric.store@,
            mmu.table@,
            vaddr,
            4,
            *old(out32) as int,
            *final(out32) as int,
            *old(context),
            *final(context),
            r,
        ),
        call_ensures(load64_le::<T, C>, (mmu, fabric, tlb, context, vaddr, out64), r) ==> loaded_for(
            fabric.store@,
            mmu.table@,
            vaddr,
            8,
            *old(out64) as int,
            *final(out64) as int,
            *old(context),
            *final(context),
            r,
        ),
{
    let st = fabric.store@;
    let table = mmu.table@;
    if call_ensures(load_byte::<T, C>, (mmu, fabric, tlb, context, vaddr, out8), r) {
        lemma_loaded_for(
            st,
            table,
            vaddr,
            1,
            crate::access::byte_at(st, table, vaddr as int) as nat,
            *old(out8) as nat,
            *final(out8) as nat,
            *old(context),
            *final(context),
            r,
        );
    }
    if call_ensures(load16_le::<T, C>, (mmu, fabric, tlb, context, vaddr, out16), r) {
        lemma_loaded_for(
            st,
            table,
            vaddr,
            2,
            le_value(bytes_at(st, table, vaddr as int, 2)),
            *old(out16) as nat,
            *final(out16) as nat,
            *old(context),
            *final(context),
            r,
        );
    }
    if call_ensures(load32_le::<T, C>, (mmu, fabric, tlb, context, vaddr, out32), r) {
        lemma_loaded_for(
            st,
            table,
            vaddr,
            4,
            le_value(bytes_at(st, table, vaddr as int, 4)),
            *old(out32) as nat,
            *final(out32) as nat,
            *old(context),
            *final(context),
            r,
        );
    }
    if call_ensures(load64_le::<T, C>, (mmu, fabric, tlb, context, vaddr, out64), r) {
        lemma_loaded_for(
            st,
            table,
            vaddr,
            8,
            le_value(bytes_at(st, table, vaddr as int, 8)),
            *old(out64) as nat,
            *final(out64) as nat,
            *old(context),
            *final(context),
            r,
        );
    }
}

/// Stores for compiled code, of every width.
pub proof fn law_store_callbacks<T: ICache, C: LookupCache>(
    mmu: &IoMMU,
    fabric: &mut CpuFabric<T>,
    tlb: &mut C,
    context: &mut ExecContext,
    vaddr: u64,
    value8: u8,
    value16: u16,
    value32: u32,
    value64: u64,
    r: IoMmuStatus,
)
    requires
        mmu.wf(*old(fabric)),
    ensures
        call_ensures(store_byte::<T, C>, (mmu, fabric, tlb, context, vaddr, value8), r) ==> stored_for(
            old(fabric).store@,
            final(fabric).store@,
            mmu.table@,
            vaddr,
            1,
            value8 as int,
            *old(context),
            *final(context),
            r,
        ),
        call_ensures(store16_le::<T, C>, (mmu, fabric, tlb, context, vaddr, value16), r) ==> stored_for(
            old(fabric).store@,
            final(fabric).store@,
            mmu.table@,
            vaddr,
            2,
            value16 as int,
            *old(context),
            *final(context),
            r,
        ),
        call_ensures(store32_le::<T, C>, (mmu, fabric, tlb, context, vaddr, value32), r) ==> stored_for(
            old(fabric).store@,
            final(fabric).store@,
            mmu.table@,
            vaddr,
            4,
            value32 as int,
            *old(context),
            *final(context),
            r,
        ),
        call_ensures(store64_le::<T, C>, (mmu, fabric, tlb, context, vaddr, value64), r) ==> stored_for(
            old(fabric).store@,
            final(fabric).store@,
            mmu.table@,
            vaddr,
            8,
            value64 as int,
            *old(context),
            *final(context),
            r,
        ),
{
    let a = old(fabric).store@;
    let b = final(fabric).store@;
    lemma_pow256_values();
    if call_ensures(store_byte::<T, C>, (mmu, fabric, tlb, context, vaddr, value8), r) {
        assert(to_le(value8 as nat, 1) =~= seq![value8]);
        lemma_stored_for(
            a,
            b,
            mmu.table.space@,
            mmu.table@,
            vaddr,
            1,
            value8 as u64,
            *old(context),
            *final(context),
            r,
        );
    }
    if call_ensures(store16_le::<T, C>, (mmu, fabric, tlb, context, vaddr, value16), r) {
        lemma_stored_for(
            a,
            b,
            mmu.table.space@,
            mmu.table@,
            vaddr,
            2,
            value16 as u64,
            *old(context),
            *final(context),
            r,
        );
    }
    if call_ensures(store32_le::<T, C>, (mmu, fabric, tlb, context, vaddr, value32), r) {
        lemma_stored_for(
            a,
            b,
            mmu.table.space@,
            mmu.table@,
            vaddr,
            4,
            value32 as u64,
            *old(context),
            *final(context),
            r,
        );
    }
    if call_ensures(store64_le::<T, C>, (mmu, fabric, tlb, context, vaddr, value64), r) {
        lemma_stored_for(
            a,
            b,
            mmu.table.space@,
            mmu.table@,
            vaddr,
            8,
            value64 as u64,
            *old(context),
            *final(context),
            r,
        );
    }
}

/// The 8-bit exclusive load and the exclusive store right behind it: the load
/// gives what the guest sees, and the store gets through where the page may be
/// written and uses the reservation up.
pub proof fn law_exclusive_8<T: ICache, C: LookupCache>(
    mmu: &IoMMU,
    loading: &mut CpuFabric<T>,
    tlb: &mut C,
    context: &mut ExecContext,
    vaddr: u64,
    out: &mut u8,
    r: IoMmuStatus,
    storing: &mut CpuFabric<T>,
    tlb2: &mut C,
    context2: &mut ExecContext,
    value: u8,
    s: StrexStatus,
)
    requires
        mmu.wf(*old(loading)),
        call_ensures(ldrexb::<T, C>, (mmu, loading, tlb, context, vaddr, out), r),
        *old(context2) == *final(context),
        call_ensures(strexb::<T, C>, (mmu, storing, tlb2, context2, vaddr, value), s),
    ensures
        loaded_exclusively(
            *old(loading),
            *final(loading),
            mmu.table@,
            vaddr,
            1,
            *final(out) as int,
            *old(context),
            *final(context),
            r,
        ),
        final(context2).exclusive_monitor_reservation is None,
        *old(storing) == *final(loading) && open_exclusively(
            old(loading).store@,
            mmu.table@,
            vaddr,
            1,
            false,
        ) && open_exclusively(old(loading).store@, mmu.table@, vaddr, 1, true) ==> s
            == StrexStatus::Stored && left_behind(
            old(loading).store@,
            final(storing).store@,
            mmu.table@,
            vaddr,
            1,
            value as int,
        ),
        open_exclusively(old(loading).store@, mmu.table@, vaddr, 1, false) && faults_at(
            old(storing).store@,
            mmu.table@,
            vaddr as int,
            1,
            false,
        ) is None && number_at(old(storing).store@, mmu.table@, vaddr as int, 1) != number_at(
            old(loading).store@,
            mmu.table@,
            vaddr as int,
            1,
        ) ==> s != StrexStatus::Stored && final(storing).store@ == old(storing).store@,
{
    let table = mmu.table@;
    lemma_pow256_values();
    lemma_loaded_exclusively(
        *old(loading),
        *final(loading),
        table,
        vaddr,
        1,
        *final(out) as u64,
        *old(context),
        *final(context),
        r,
    );
    if open_exclusively(old(loading).store@, table, vaddr, 1, false) {
        if *old(storing) == *final(loading) && open_exclusively(
            old(loading).store@,
            table,
            vaddr,
            1,
            true,
        ) {
            lemma_exclusive_pair(
                *old(loading),
                *final(loading),
                *final(storing),
                *mmu,
                vaddr,
                1,
                *final(out) as u64,
                value as u64,
                *old(context),
                *final(context),
                *final(context2),
                r,
                s,
            );
        }
        if faults_at(old(storing).store@, table, vaddr as int, 1, false) is None && number_at(
            old(storing).store@,
            table,
            vaddr as int,
            1,
        ) != number_at(old(loading).store@, table, vaddr as int, 1) {
            lemma_exclusive_conflict(
                *old(loading),
                *final(loading),
                *old(storing),
                *final(storing),
                table,
                vaddr,
                1,
                *final(out) as u64,
                value as u64,
                *old(context),
                *final(context),
                *final(context2),
                r,
                s,
            );
        }
    }
}

/// The 16-bit exclusive load and the exclusive store right behind it: the load
/// gives what the guest sees, and the store gets through where the page may be
/// written and uses the reservation up.
pub proof fn law_exclusive_16<T: ICache, C: LookupCache>(
    mmu: &IoMMU,
    loading: &mut CpuFabric<T>,
    tlb: &mut C,
    context: &mut ExecContext,
    vaddr: u64,
    out: &mut u16,
    r: IoMmuStatus,
    storing: &mut CpuFabric<T>,
    tlb2: &mut C,
    context2: &mut ExecContext,
    value: u16,
    s: StrexStatus,
)
    requires
        mmu.wf(*old(loading)),
        call_ensures(ldrexh::<T, C>, (mmu, loading, tlb, context, vaddr, out), r),
        *old(context2) == *final(context),
        call_ensures(strexh::<T, C>, (mmu, storing, tlb2, context2, vaddr, value), s),
    ensures
        loaded_exclusively(
            *old(loading),
            *final(loading),
            mmu.table@,
            vaddr,
            2,
            *final(out) as int,
            *old(context),
            *final(context),
            r,
        ),
        final(context2).exclusive_monitor_reservation is None,
        *old(storing) == *final(loading) && open_exclusively(
            old(loading).store@,
            mmu.table@,
            vaddr,
            2,
            false,
        ) && open_exclusively(old(loading).store@, mmu.table@, vaddr, 2, true) ==> s
            == StrexStatus::Stored && left_behind(
            old(loading).store@,
            final(storing).store@,
            mmu.table@,
            vaddr,
            2,
            value as int,
        ),
        open_exclusively(old(loading).store@, mmu.table@, vaddr, 2, false) && faults_at(
            old(storing).store@,
            mmu.table@,
            vaddr as int,
            2,
            false,
        ) is None && number_at(old(storing).store@, mmu.table@, vaddr as int, 2) != number_at(
            old(loading).store@,
            mmu.table@,
            vaddr as int,
            2,
        ) ==> s != StrexStatus::Stored && final(storing).store@ == old(storing).store@,
{
    let table = mmu.table@;
    lemma_pow256_values();
    lemma_loaded_exclusively(
        *old(loading),
        *final(loading),
        table,
        vaddr,
        2,
        *final(out) as u64,
        *old(context),
        *final(context),
        r,
    );
    if open_exclusively(old(loading).store@, table, vaddr, 2, false) {
        if *old(storing) == *final(loading) && open_exclusively(
            old(loading).store@,
            table,
            vaddr,
            2,
            true,
        ) {
            lemma_exclusive_pair(
                *old(loading),
                *final(loading),
                *final(storing),
                *mmu,
                vaddr,
                2,
                *final(out) as u64,
                value as u64,
                *old(context),
                *final(context),
                *final(context2),
                r,
                s,
            );
        }
        if faults_at(old(storing).store@, table, vaddr as int, 2, false) is None && number_at(
            old(storing).store@,
            table,
            vaddr as int,
            2,
        ) != number_at(old(loading).store@, table, vaddr as int, 2) {
            lemma_exclusive_conflict(
                *old(loading),
                *final(loading),
                *old(storing),
                *final(storing),
                table,
                vaddr,
                2,
                *final(out) as u64,
                value as u64,
                *old(context),
                *final(context),
                *final(context2),
                r,
                s,
            );
        }
    }
}

/// The 32-bit exclusive load and the exclusive store right behind it: the load
/// gives what the guest sees, and the store gets through where the page may be
/// written and uses the reservation up.
pub proof fn law_exclusive_32<T: ICache, C: LookupCache>(
    mmu: &IoMMU,
    loading: &mut CpuFabric<T>,
    tlb: &mut C,
    context: &mut ExecContext,
    vaddr: u64,
    out: &mut u32,
    r: IoMmuStatus,
    storing: &mut CpuFabric<T>,
    tlb2: &mut C,
    context2: &mut ExecContext,
    value: u32,
    s: StrexStatus,
)
    requires
        mmu.wf(*old(loading)),
        call_ensures(ldrex::<T, C>, (mmu, loading, tlb, context, vaddr, out), r),
        *old(context2) == *final(context),
        call_ensures(strex::<T, C>, (mmu, storing, tlb2, context2, vaddr, value), s),
    ensures
        loaded_exclusively(
            *old(loading),
            *final(loading),
            mmu.table@,
            vaddr,
            4,
            *final(out) as int,
            *old(context),
            *final(context),
            r,
        ),
        final(context2).exclusive_monitor_reservation is None,
        *old(storing) == *final(loading) && open_exclusively(
            old(loading).store@,
            mmu.table@,
            vaddr,
            4,
            false,
        ) && open_exclusively(old(loading).store@, mmu.table@, vaddr, 4, true) ==> s
            == StrexStatus::Stored && left_behind(
            old(loading).store@,
            final(storing).store@,
            mmu.table@,
            vaddr,
            4,
            value as int,
        ),
        open_exclusively(old(loading).store@, mmu.table@, vaddr, 4, false) && faults_at(
            old(storing).store@,
            mmu.table@,
            vaddr as int,
            4,
            false,
        ) is None && number_at(old(storing).store@, mmu.table@, vaddr as int, 4) != number_at(
            old(loading).store@,
            mmu.table@,
            vaddr as int,
            4,
        ) ==> s != StrexStatus::Stored && final(storing).store@ == old(storing).store@,
{
    let table = mmu.table@;
    lemma_pow256_values();
    lemma_loaded_exclusively(
        *old(loading),
        *final(loading),
        table,
        vaddr,
        4,
        *final(out) as u64,
        *old(context),
        *final(context),
        r,
    );
    if open_exclusively(old(loading).store@, table, vaddr, 4, false) {
        if *old(storing) == *final(loading) && open_exclusively(
            old(loading).store@,
            table,
            vaddr,
            4,
            true,
        ) {
            lemma_exclusive_pair(
                *old(loading),
                *final(loading),
                *final(storing),
                *mmu,
                vaddr,
                4,
                *final(out) as u64,
                value as u64,
                *old(context),
                *final(context),
                *final(context2),
                r,
                s,
            );
        }
        if faults_at(old(storing).store@, table, vaddr as int, 4, false) is None && number_at(
            old(storing).store@,
            table,
            vaddr as int,
            4,
        ) != number_at(old(loading).store@, table, vaddr as int, 4) {
            lemma_exclusive_conflict(
                *old(loading),
                *final(loading),
                *old(storing),
                *final(storing),
                table,
                vaddr,
                4,
                *final(out) as u64,
                value as u64,
                *old(context),
                *final(context),
                *final(context2),
                r,
                s,
            );
        }
    }
}

/// The 64-bit exclusive load and the exclusive store right behind it: the load
/// gives what the guest sees, and the store gets through where the page may be
/// written and uses the reservation up.
pub proof fn law_exclusive_64<T: ICache, C: LookupCache>(
    mmu: &IoMMU,
    loading: &mut CpuFabric<T>,
    tlb: &mut C,
    context: &mut ExecContext,
    vaddr: u64,
    out: &mut u64,
    r: IoMmuStatus,
    storing: &mut CpuFabric<T>,
    tlb2: &mut C,
    context2: &mut ExecContext,
    value: u64,
    s: StrexStatus,
)
    requires
        mmu.wf(*old(loading)),
        call_ensures(ldrexd::<T, C>, (mmu, loading, tlb, context, vaddr, out), r),
        *old(context2) == *final(context),
        call_ensures(strexd::<T, C>, (mmu, storing, tlb2, context2, vaddr, value), s),
    ensures
        loaded_exclusively(
            *old(loading),
            *final(loading),
            mmu.table@,
            vaddr,
            8,
            *final(out) as int,
            *old(context),
            *final(context),
            r,
        ),
        final(context2).exclusive_monitor_reservation is None,
        *old(storing) == *final(loading) && open_exclusively(
            old(loading).store@,
            mmu.table@,
            vaddr,
            8,
            false,
        ) && open_exclusively(old(loading).store@, mmu.table@, vaddr, 8, true) ==> s
            == StrexStatus::Stored && left_behind(
            old(loading).store@,
            final(storing).store@,
            mmu.table@,
            vaddr,
            8,
            value as int,
        ),
        open_exclusively(old(loading).store@, mmu.table@, vaddr, 8, false) && faults_at(
            old(storing).store@,
            mmu.table@,
            vaddr as int,
            8,
            false,
        ) is None && number_at(old(storing).store@, mmu.table@, vaddr as int, 8) != number_at(
            old(loading).store@,
            mmu.table@,
            vaddr as int,
            8,
        ) ==> s != StrexStatus::Stored && final(storing).store@ == old(storing).store@,
{
    let table = mmu.table@;
    lemma_pow256_values();
    lemma_loaded_exclusively(
        *old(loading),
        *final(loading),
        table,
        vaddr,
        8,
        *final(out) as u64,
        *old(context),
        *final(context),
        r,
    );
    if open_exclusively(old(loading).store@, table, vaddr, 8, false) {
        if *old(storing) == *final(loading) && open_exclusively(
            old(loading).store@,
            table,
            vaddr,
            8,
            true,
        ) {
            lemma_exclusive_pair(
                *old(loading),
                *final(loading),
                *final(storing),
                *mmu,
                vaddr,
                8,
                *final(out) as u64,
                value as u64,
                *old(context),
                *final(context),
                *final(context2),
                r,
                s,
            );
        }
        if faults_at(old(storing).store@, table, vaddr as int, 8, false) is None && number_at(
            old(storing).store@,
            table,
            vaddr as int,
            8,
        ) != number_at(old(loading).store@, table, vaddr as int, 8) {
            lemma_exclusive_conflict(
                *old(loading),
                *final(loading),
                *old(storing),
                *final(storing),
                table,
                vaddr,
                8,
                *final(out) as u64,
                value as u64,
                *old(context),
                *final(context),
                *final(context2),
                r,
                s,
            );
        }
    }
}

/// Without a reservation, as after `clrex`, an exclusive store of any width
/// fails and changes nothing.
pub proof fn law_clear_then_store<T: ICache, C: LookupCache>(
    mmu: &IoMMU,
    clearing: &mut ExecContext,
    fabric: &mut CpuFabric<T>,
    tlb: &mut C,
    context: &mut ExecContext,
    vaddr: u64,
    value8: u8,
    value16: u16,
    value32: u32,
    value64: u64,
    s: StrexStatus,
)
    requires
        call_ensures(clrex, (clearing,), ()),
        *old(context) == *final(clearing),
        ({
            ||| call_ensures(
                strexb::<T, C>,
                (mmu, fabric, tlb, context, vaddr, value8),
                s,
            )
            ||| call_ensures(
                strexh::<T, C>,
                (mmu, fabric, tlb, context, vaddr, value16),
                s,
            )
            ||| call_ensures(
                strex::<T, C>,
                (mmu, fabric, tlb, context, vaddr, value32),
                s,
            )
            ||| call_ensures(
                strexd::<T, C>,
                (mmu, fabric, tlb, context, vaddr, value64),
                s,
            )
        }),
    ensures
        s == StrexStatus::Failed,
        *final(fabric) == *old(fabric),
        final(context).current_mem_fault == old(clearing).current_mem_fault,
{
}

} // verus!
