//! The identity token of an address space: it changes exactly when the page
//! table does, and then to one that was never used before.
use vstd::prelude::*;
use crate::cpu_fabric::CpuFabric;
use crate::fault::MemoryFault;
use crate::icache::ICache;
use crate::io_mmu::IoMMU;
use crate::memory::{MemProt, PagePointer};
use crate::page_table::{copied, is_cow, PageTableAccess};

verus! {

/// The token is a new one if the page table changed, and the old one if it did
/// not. New tokens are handed out in turn.
pub open spec fn renamed<T: ICache>(a: IoMMU, fa: CpuFabric<T>, b: IoMMU, fb: CpuFabric<T>) -> bool {
    if b.table@ == a.table@ {
        &&& b.identifier.token == a.identifier.token
        &&& fb.next_token == fa.next_token
    } else {
        &&& b.identifier.token == fa.next_token
        &&& fb.next_token == fa.next_token + 1
    }
}

/// Every operation that makes a mapping renames the address space exactly when
/// it mapped something.
pub proof fn law_map_renames<T: ICache>(
    mmu: &mut IoMMU,
    fabric: &mut CpuFabric<T>,
    base: u64,
    size: u64,
    prot: MemProt,
    shared: bool,
    lazy: bool,
    device: u64,
    addr: u64,
    ptr: PagePointer,
    r: Result<(), MemoryFault>,
)
    requires
        ({
            ||| call_ensures(IoMMU::map::<T>, (mmu, fabric, base, size, lazy, shared, prot), r)
            ||| call_ensures(
                IoMMU::map_device_dyn::<T>,
                (mmu, fabric, base, size, device, shared, prot),
                r,
            )
            ||| call_ensures(
                IoMMU::map_extern::<T>,
                (mmu, fabric, base, size, addr, ptr, lazy, shared, prot),
                r,
            )
        }),
    ensures
        renamed(*old(mmu), *old(fabric), *final(mmu), *final(fabric)),
        final(mmu).table@ != old(mmu).table@ <==> r is Ok && size > 0,
{
    if r is Ok && size > 0 {
        let access = PageTableAccess { start_page: base / 4096, page_count: size / 4096 };
        let n = base / 4096;
        assert(access.contains(n as int));
        assert(!old(mmu).table@.contains_key((n as int) as u64));
        assert(final(mmu).table@.contains_key(n));
    }
}

/// Unmapping renames the address space exactly when a page was mapped there.
pub proof fn law_unmap_renames<T: ICache>(
    mmu: &mut IoMMU,
    fabric: &mut CpuFabric<T>,
    start: u64,
    size: u64,
    r: Result<(), MemoryFault>,
)
    requires
        call_ensures(IoMMU::unmap::<T>, (mmu, fabric, start, size), r),
    ensures
        renamed(*old(mmu), *old(fabric), *final(mmu), *final(fabric)),
{
    if r is Ok && size > 0 {
        let access = PageTableAccess { start_page: start / 4096, page_count: size / 4096 };
        if exists|n: u64| access.contains(n as int) && #[trigger] old(mmu).table@.contains_key(n) {
            let n = choose|n: u64|
                access.contains(n as int) && #[trigger] old(mmu).table@.contains_key(n);
            assert(!final(mmu).table@.contains_key(n));
        } else {
            assert(final(mmu).table@ =~= old(mmu).table@);
        }
    }
}

/// Protecting pages renames the address space exactly when a protection
/// changed.
pub proof fn law_protect_renames<T: ICache>(
    mmu: &mut IoMMU,
    fabric: &mut CpuFabric<T>,
    start: u64,
    size: u64,
    prot: MemProt,
    r: Result<(), MemoryFault>,
)
    requires
        call_ensures(IoMMU::protect::<T>, (mmu, fabric, start, size, prot), r),
    ensures
        renamed(*old(mmu), *old(fabric), *final(mmu), *final(fabric)),
{
    if r is Ok && size > 0 {
        let access = PageTableAccess { start_page: start / 4096, page_count: size / 4096 };
        let before = old(mmu).table@;
        let after = final(mmu).table@;
        if exists|m: u64|
            access.contains(m as int) && #[trigger] before[m].protections != prot {
            let m = choose|m: u64|
                access.contains(m as int) && #[trigger] before[m].protections != prot;
            assert(before.contains_key((m as int) as u64));
            assert(after[m].protections == prot);
        } else {
            assert forall|n: u64| #[trigger] before.contains_key(n) implies after[n] == before[n] by {
                if access.contains(n as int) {
                    assert(before[n].protections == prot);
                }
            }
            assert(after =~= before);
        }
    }
}

/// Forking, and resolving copy-on-write pages, renames the address space
/// exactly when an entry changed.
pub proof fn law_fork_renames<T: ICache>(mmu: &mut IoMMU, fabric: &mut CpuFabric<T>, r: IoMMU)
    requires
        call_ensures(IoMMU::fork::<T>, (mmu, fabric), r),
    ensures
        renamed(*old(mmu), *old(fabric), *final(mmu), *final(fabric)),
        r.identifier == final(mmu).identifier,
{
    let before = old(mmu).table@;
    let after = final(mmu).table@;
    if exists|n: u64| #[trigger] before.contains_key(n) && after[n] != before[n] {
    } else {
        assert(after =~= before);
    }
}

/// As [`law_fork_renames`], for resolving copy-on-write pages.
pub proof fn law_copy_all_renames<T: ICache>(mmu: &mut IoMMU, fabric: &mut CpuFabric<T>)
    requires
        call_ensures(IoMMU::copy_all_cow_pages::<T>, (mmu, fabric), ()),
    ensures
        renamed(*old(mmu), *old(fabric), *final(mmu), *final(fabric)),
{
    let before = old(mmu).table@;
    let after = final(mmu).table@;
    let a = old(fabric).store@;
    let b = final(fabric).store@;
    if exists|n: u64| #[trigger] before.contains_key(n) && is_cow(before[n]) {
        let n = choose|n: u64| #[trigger] before.contains_key(n) && is_cow(before[n]);
        assert(copied(a, b, before[n], after[n]));
        assert(after[n] != before[n]);
    } else {
        assert forall|n: u64| #[trigger] before.contains_key(n) implies after[n] == before[n] by {
            assert(copied(a, b, before[n], after[n]));
        }
        assert(after =~= before);
    }
}

/// A new address space is empty and has a token of its own.
pub proof fn law_new_space<T: ICache>(fabric: &mut CpuFabric<T>, r: IoMMU)
    requires
        call_ensures(IoMMU::new::<T>, (fabric,), r),
    ensures
        forall|n: u64| !#[trigger] r.table@.contains_key(n),
        r.identifier.token == old(fabric).next_token,
        final(fabric).next_token > r.identifier.token || old(fabric).next_token == u64::MAX,
        final(fabric).store == old(fabric).store,
{
}

} // verus!
