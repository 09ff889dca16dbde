//! What mapping operations do to the guest addresses they are asked for.
//!
//! The laws speak of addresses and of the entries that stand for them, and hold
//! of every call of the operations.
use vstd::prelude::*;
use crate::cpu_fabric::CpuFabric;
use crate::fault::MemoryFault;
use crate::icache::ICache;
use crate::io_mmu::{map_outcome, IoMMU};
use crate::lookup_cache::LookupCache;
use crate::memory::{MemProt, PagePointer};
use crate::page_store::{Holder, StoreView};
use crate::page_table::{
    first_page, lists_lost, lost, mapped_as, me, memory_of, MapRegion, MemMapFlags, PageSource, PageTableAccess,
};

verus! {

/// The pages of a request are those of its addresses: an address lies in
/// `base..(base + size)` exactly when its page is among them. A request that is
/// not page-aligned faults at its base, one that goes past the end of the
/// address space at the last address.
pub proof fn law_pages_of_addresses(
    base: u64,
    size: u64,
    r: Result<Option<PageTableAccess>, MemoryFault>,
)
    requires
        call_ensures(PageTableAccess::get_pages, (base, size), r),
    ensures
        r is Ok <==> base % 4096 == 0 && size % 4096 == 0 && base + size
            <= 0x1_0000_0000_0000_0000,
        r matches Err(fault) ==> fault.reason is GeneralProtection && fault.vaddr == (if base % 4096
            == 0 && size % 4096 == 0 {
            u64::MAX
        } else {
            base
        }),
        r matches Ok(pages) ==> (pages is None <==> size == 0),
        r matches Ok(Some(access)) ==> forall|a: int|
            #![trigger a / 4096]
            0 <= a < 0x1_0000_0000_0000_0000 ==> (base <= a < base + size <==> access.start_page <= a
                / 4096 < access.start_page + access.page_count),
{
    if let Ok(Some(access)) = r {
        assert forall|a: int|
            #![trigger a / 4096]
            0 <= a < 0x1_0000_0000_0000_0000 implies (base <= a < base + size <==> access.start_page
            <= a / 4096 < access.start_page + access.page_count) by {
            assert(access.start_page * 4096 == base);
            assert(access.page_count * 4096 == size);
        }
    }
}

/// What mapping a region does, in terms of addresses.
proof fn lemma_mapped<T: ICache>(
    a: IoMMU,
    fa: CpuFabric<T>,
    b: IoMMU,
    fb: CpuFabric<T>,
    base: u64,
    size: u64,
    prot: MemProt,
    region: MapRegion,
    r: Result<(), MemoryFault>,
)
    requires
        map_outcome(a, fa, b, fb, base, size, prot, region, r),
    ensures
        r is Ok <==> base % 4096 == 0 && size % 4096 == 0 && base + size <= 0x1_0000_0000_0000_0000
            && forall|n: u64|
            base <= n * 4096 < base + size ==> !#[trigger] a.table@.contains_key(n),
        r is Err ==> b.table@ == a.table@ && fb.store@ == fa.store@,
        r matches Err(fault) ==> fault.reason is GeneralProtection,
        r is Err && base % 4096 == 0 && size % 4096 == 0 && base + size <= 0x1_0000_0000_0000_0000
            ==> exists|n: u64| #[trigger]
            a.table@.contains_key(n) && base <= n * 4096 < base + size && r->Err_0.vaddr == n * 4096
                && forall|m: u64|
                base <= m * 4096 < n * 4096 ==> !#[trigger] a.table@.contains_key(m),
        r is Ok ==> forall|n: u64|
            !(base <= n * 4096 < base + size) ==> #[trigger] b.table@.contains_key(n)
                == a.table@.contains_key(n) && (a.table@.contains_key(n) ==> b.table@[n]
                == a.table@[n]),
        r is Ok ==> forall|n: u64|
            base <= n * 4096 < base + size ==> #[trigger] b.table@.contains_key(n) && mapped_as(
                fb.store@,
                a.table.space@,
                n,
                b.table@[n],
                n - base / 4096,
                prot,
                region,
            ),
{
    if base % 4096 == 0 && size % 4096 == 0 && base + size <= 0x1_0000_0000_0000_0000 && size > 0 {
        let access = PageTableAccess { start_page: base / 4096, page_count: size / 4096 };
        assert(access.start_page * 4096 == base);
        assert(access.page_count * 4096 == size);
        if r is Ok {
            assert forall|n: u64|
                base <= n * 4096 < base + size implies !#[trigger] a.table@.contains_key(n) by {
                assert(access.contains(n as int));
                assert(!a.table@.contains_key((n as int) as u64));
            }
            assert forall|n: u64|
                !(base <= n * 4096 < base + size) implies #[trigger] b.table@.contains_key(n)
                == a.table@.contains_key(n) && (a.table@.contains_key(n) ==> b.table@[n]
                == a.table@[n]) by {
                assert(!access.contains(n as int));
            }
        } else {
            let page = choose|page: int|
                first_page(a.table@, access, true, page) && r->Err_0 == crate::fault::gp(
                    (page * 4096) as u64,
                );
            let n = page as u64;
            assert(a.table@.contains_key(n));
            assert forall|m: u64| base <= m * 4096 < n * 4096 implies !#[trigger] a.table@.contains_key(
                m,
            ) by {
                assert(a.table@.contains_key((m as int) as u64) != true);
            }
        }
    }
}

/// Mapping anonymous memory succeeds exactly when the request is page-aligned,
/// stays in the address space and meets no mapping. Then every page of it has
/// the protections asked for and memory that reads as zeros, which it shares
/// with nobody unless the mapping is lazy, and no other page changes. Private
/// memory is written in place unless the mapping is lazy.
pub proof fn law_map<T: ICache>(
    mmu: &mut IoMMU,
    fabric: &mut CpuFabric<T>,
    base: u64,
    size: u64,
    lazy: bool,
    shared: bool,
    prot: MemProt,
    r: Result<(), MemoryFault>,
)
    requires
        call_ensures(IoMMU::map::<T>, (mmu, fabric, base, size, lazy, shared, prot), r),
    ensures
        r is Ok <==> base % 4096 == 0 && size % 4096 == 0 && base + size <= 0x1_0000_0000_0000_0000
            && forall|n: u64|
            base <= n * 4096 < base + size ==> !#[trigger] old(mmu).table@.contains_key(n),
        r is Err ==> final(mmu).table@ == old(mmu).table@ && final(fabric).store@ == old(
            fabric,
        ).store@,
        r is Ok ==> forall|n: u64|
            !(base <= n * 4096 < base + size) ==> #[trigger] final(mmu).table@.contains_key(n) == old(
                mmu,
            ).table@.contains_key(n) && (old(mmu).table@.contains_key(n) ==> final(mmu).table@[n]
                == old(mmu).table@[n]),
        r is Ok ==> forall|n: u64|
            base <= n * 4096 < base + size ==> #[trigger] final(mmu).table@.contains_key(n)
                && final(mmu).table@[n].protections == prot,
        r is Ok && shared ==> forall|n: u64|
            base <= n * 4096 < base + size ==> {
                &&& (#[trigger] final(mmu).table@[n]).source matches PageSource::Shared(b)
                &&& reads_as_zeros(*final(fabric), b)
                &&& final(fabric).store@.pages[b as int].holders@ == set![
                    Holder::Table { space: old(mmu).table.space@, page: n },
                ]
            },
        r is Ok && !shared ==> forall|n: u64|
            base <= n * 4096 < base + size ==> {
                &&& (#[trigger] final(mmu).table@[n]).source matches PageSource::Private {
                    page: b,
                    write_protected,
                }
                &&& write_protected == lazy
                &&& reads_as_zeros(*final(fabric), b)
                &&& !lazy ==> final(fabric).store@.pages[b as int].holders@ == set![
                    Holder::Table { space: old(mmu).table.space@, page: n },
                ]
            },
{
    let region = MapRegion::Anon(
        if shared {
            MemMapFlags::Shared
        } else if lazy {
            MemMapFlags::Cow
        } else {
            MemMapFlags::Private
        },
    );
    lemma_mapped(
        *old(mmu),
        *old(fabric),
        *final(mmu),
        *final(fabric),
        base,
        size,
        prot,
        region,
        r,
    );
    if r is Ok {
        assert forall|n: u64| base <= n * 4096 < base + size implies mapped_as(
            final(fabric).store@,
            old(mmu).table.space@,
            n,
            #[trigger] final(mmu).table@[n],
            n - base / 4096,
            prot,
            region,
        ) by {
            assert(final(mmu).table@.contains_key(n));
        }
    }
}

/// Mapping memory of the embedder: page by page, the mapping shows the host
/// pages from `ptr` on, and no other page of the address space changes. Memory
/// whose host address is not page-aligned is refused at `base`. Read-only
/// memory is copy-on-write, other memory is written in place.
pub proof fn law_map_extern<T: ICache>(
    mmu: &mut IoMMU,
    fabric: &mut CpuFabric<T>,
    base: u64,
    size: u64,
    addr: u64,
    ptr: PagePointer,
    readonly: bool,
    shared: bool,
    prot: MemProt,
    r: Result<(), MemoryFault>,
)
    requires
        call_ensures(
            IoMMU::map_extern::<T>,
            (mmu, fabric, base, size, addr, ptr, readonly, shared, prot),
            r,
        ),
        !(readonly && shared),
    ensures
        r is Ok <==> addr % 4096 == 0 && base % 4096 == 0 && size % 4096 == 0 && base + size
            <= 0x1_0000_0000_0000_0000 && forall|n: u64|
            base <= n * 4096 < base + size ==> !#[trigger] old(mmu).table@.contains_key(n),
        addr % 4096 != 0 ==> (r matches Err(fault) && fault.vaddr == base),
        r is Err ==> final(mmu).table@ == old(mmu).table@ && final(fabric).store@ == old(
            fabric,
        ).store@,
        r is Ok ==> forall|n: u64|
            !(base <= n * 4096 < base + size) ==> #[trigger] final(mmu).table@.contains_key(n) == old(
                mmu,
            ).table@.contains_key(n) && (old(mmu).table@.contains_key(n) ==> final(mmu).table@[n]
                == old(mmu).table@[n]),
        r is Ok ==> forall|n: u64|
            base <= n * 4096 < base + size ==> #[trigger] final(mmu).table@.contains_key(n)
                && final(mmu).table@[n].protections == prot,
        r is Ok ==> forall|n: u64|
            base <= n * 4096 < base + size ==> match (#[trigger] final(mmu).table@[n]).source {
                PageSource::Shared(b) => shared && final(fabric).store@.pages[b as int].allocated_page.index == ptr.index + n - base / 4096,
                PageSource::Private { page: b, write_protected } => !shared && write_protected
                    == readonly && final(fabric).store@.pages[b as int].allocated_page.index
                    == ptr.index + n - base / 4096,
                PageSource::Object { .. } => false,
            },
{
    let region = MapRegion::Extern {
        flags: if readonly {
            MemMapFlags::Cow
        } else if shared {
            MemMapFlags::Shared
        } else {
            MemMapFlags::Private
        },
        base_ptr: ptr,
    };
    if addr % 4096 == 0 {
        lemma_mapped(
            *old(mmu),
            *old(fabric),
            *final(mmu),
            *final(fabric),
            base,
            size,
            prot,
            region,
            r,
        );
        if r is Ok {
            assert forall|n: u64| base <= n * 4096 < base + size implies mapped_as(
                final(fabric).store@,
                old(mmu).table.space@,
                n,
                #[trigger] final(mmu).table@[n],
                n - base / 4096,
                prot,
                region,
            ) by {
                assert(final(mmu).table@.contains_key(n));
            }
        }
    }
}

/// Mapping a memory object at `base`: the slot behind the page `i` pages above
/// `base` stands for page `i` of the object and is not resident yet, so no two
/// pages of one mapping stand for the same page of the object. No other page of
/// the address space changes.
pub proof fn law_map_device<T: ICache>(
    mmu: &mut IoMMU,
    fabric: &mut CpuFabric<T>,
    base: u64,
    size: u64,
    device: u64,
    shared: bool,
    prot: MemProt,
    r: Result<(), MemoryFault>,
)
    requires
        call_ensures(
            IoMMU::map_device_dyn::<T>,
            (mmu, fabric, base, size, device, shared, prot),
            r,
        ),
    ensures
        r is Ok <==> base % 4096 == 0 && size % 4096 == 0 && base + size <= 0x1_0000_0000_0000_0000
            && forall|n: u64|
            base <= n * 4096 < base + size ==> !#[trigger] old(mmu).table@.contains_key(n),
        r is Err ==> final(mmu).table@ == old(mmu).table@ && final(fabric).store@ == old(
            fabric,
        ).store@,
        r is Ok ==> forall|n: u64|
            !(base <= n * 4096 < base + size) ==> #[trigger] final(mmu).table@.contains_key(n) == old(
                mmu,
            ).table@.contains_key(n) && (old(mmu).table@.contains_key(n) ==> final(mmu).table@[n]
                == old(mmu).table@[n]),
        r is Ok ==> forall|n: u64|
            base <= n * 4096 < base + size ==> #[trigger] final(mmu).table@.contains_key(n)
                && final(mmu).table@[n].protections == prot,
        r is Ok ==> forall|n: u64|
            base <= n * 4096 < base + size ==> {
                &&& (#[trigger] final(mmu).table@[n]).source matches PageSource::Object {
                    slot,
                    shared: kept,
                }
                &&& kept == shared
                &&& final(fabric).store@.slots[slot as int].object == device
                &&& base + final(fabric).store@.slots[slot as int].page_offset * 4096 == n * 4096
                &&& final(fabric).store@.slots[slot as int].page is None
            },
{
    let region = MapRegion::Object { shared, object: device };
    lemma_mapped(
        *old(mmu),
        *old(fabric),
        *final(mmu),
        *final(fabric),
        base,
        size,
        prot,
        region,
        r,
    );
    if r is Ok {
        assert forall|n: u64| base <= n * 4096 < base + size implies mapped_as(
            final(fabric).store@,
            old(mmu).table.space@,
            n,
            #[trigger] final(mmu).table@[n],
            n - base / 4096,
            prot,
            region,
        ) by {
            assert(final(mmu).table@.contains_key(n));
        }
    }
}

/// Unmapping succeeds exactly when the request is page-aligned and stays in the
/// address space. Then no page of it is mapped, and every other page is as it
/// was.
pub proof fn law_unmap_pages<T: ICache>(
    mmu: &mut IoMMU,
    fabric: &mut CpuFabric<T>,
    start: u64,
    size: u64,
    r: Result<(), MemoryFault>,
)
    requires
        call_ensures(IoMMU::unmap::<T>, (mmu, fabric, start, size), r),
    ensures
        r is Ok <==> start % 4096 == 0 && size % 4096 == 0 && start + size
            <= 0x1_0000_0000_0000_0000,
        r is Err ==> final(mmu).table@ == old(mmu).table@ && final(fabric).store@ == old(
            fabric,
        ).store@,
        r is Ok ==> forall|n: u64| #[trigger]
            final(mmu).table@.contains_key(n) <==> old(mmu).table@.contains_key(n) && !(start <= n
                * 4096 < start + size),
        forall|n: u64|
            final(mmu).table@.contains_key(n) ==> #[trigger] final(mmu).table@[n] == old(
                mmu,
            ).table@[n],
{
    if start % 4096 == 0 && size % 4096 == 0 && start + size <= 0x1_0000_0000_0000_0000 && size
        > 0 {
        let access = PageTableAccess { start_page: start / 4096, page_count: size / 4096 };
        assert(access.start_page * 4096 == start);
        assert(access.page_count * 4096 == size);
        assert forall|n: u64|
            #![trigger access.contains(n as int)]
            access.contains(n as int) <==> start <= n * 4096 < start + size by {}
    }
}

/// `gone` lists the backed pages that nobody holds any more, each once. Their
/// memory is what was notified besides `log`, in this order, and it was given
/// back unless it is the embedder's.
pub open spec fn notified(
    a: StoreView,
    b: StoreView,
    log: Seq<PagePointer>,
    now: Seq<PagePointer>,
    gone: Seq<int>,
) -> bool {
    &&& gone.no_duplicates()
    &&& forall|i: int| #[trigger]
        gone.contains(i) <==> 0 <= i < a.pages.len() && a.pages[i].refs > 0 && b.pages[i].refs == 0
    &&& now.len() == log.len() + gone.len()
    &&& forall|k: int| 0 <= k < log.len() ==> #[trigger] now[k] == log[k]
    &&& forall|k: int|
        #![trigger gone[k]]
        0 <= k < gone.len() ==> now[log.len() + k] == a.pages[gone[k]].allocated_page && (
        a.pages[gone[k]].should_dealloc
            ==> b.host[a.pages[gone[k]].allocated_page.index as int].bytes.len() == 0)
}

/// Unmapping lets go of everything that the pages of the request held, and
/// notifies the memory of the backed pages that nobody holds any more.
pub proof fn law_unmap_lets_go<T: ICache>(
    mmu: &mut IoMMU,
    fabric: &mut CpuFabric<T>,
    start: u64,
    size: u64,
)
    requires
        final(mmu).wf(*final(fabric)),
        call_ensures(IoMMU::unmap::<T>, (mmu, fabric, start, size), Ok(())),
    ensures
        forall|i: int, n: u64|
            0 <= i < final(fabric).store@.pages.len() && start <= n * 4096 < start + size
                ==> !#[trigger] final(fabric).store@.pages[i].holders@.contains(
                Holder::Table { space: final(mmu).table.space@, page: n },
            ),
        forall|i: int, n: u64|
            0 <= i < final(fabric).store@.slots.len() && start <= n * 4096 < start + size
                ==> !#[trigger] final(fabric).store@.slots[i].holders@.contains(
                Holder::Table { space: final(mmu).table.space@, page: n },
            ),
        exists|gone: Seq<int>| #[trigger]
            notified(
                old(fabric).store@,
                final(fabric).store@,
                old(fabric).instruction_cache.invalidated(),
                final(fabric).instruction_cache.invalidated(),
                gone,
            ),
{
    law_unmap_pages(mmu, fabric, start, size, Ok(()));
    let a = old(fabric).store@;
    let b = final(fabric).store@;
    let log = old(fabric).instruction_cache.invalidated();
    let now = final(fabric).instruction_cache.invalidated();
    assert forall|i: int, n: u64|
        0 <= i < b.pages.len() && start <= n * 4096 < start
            + size implies !#[trigger] b.pages[i].holders@.contains(
        Holder::Table { space: final(mmu).table.space@, page: n },
    ) by {
        if b.pages[i].holders@.contains(me(final(mmu).table.space@, n)) {
            assert(final(mmu).table@.contains_key(n));
        }
    }
    assert forall|i: int, n: u64|
        0 <= i < b.slots.len() && start <= n * 4096 < start
            + size implies !#[trigger] b.slots[i].holders@.contains(
        Holder::Table { space: final(mmu).table.space@, page: n },
    ) by {
        if b.slots[i].holders@.contains(me(final(mmu).table.space@, n)) {
            assert(final(mmu).table@.contains_key(n));
        }
    }
    if size == 0 {
        assert(notified(a, b, log, now, Seq::<int>::empty()));
    } else {
        let gone = choose|gone: Seq<int>| #[trigger]
            lists_lost(gone, a, b) && now == log + memory_of(a, gone);
        assert forall|k: int|
            #![trigger gone[k]]
            0 <= k < gone.len() implies now[log.len() + k] == a.pages[gone[k]].allocated_page && (
        a.pages[gone[k]].should_dealloc
            ==> b.host[a.pages[gone[k]].allocated_page.index as int].bytes.len() == 0) by {
            assert(gone.contains(gone[k]));
            assert(lost(a, b, gone[k]));
            assert(memory_of(a, gone)[k] == a.pages[gone[k]].allocated_page);
        }
        assert(notified(a, b, log, now, gone));
    }
}

/// Protecting pages succeeds exactly when the request is page-aligned, stays in
/// the address space and every page of it is mapped. Then exactly those pages
/// have the new protections, and nothing else about any page changes.
pub proof fn law_protect_pages<T: ICache>(
    mmu: &mut IoMMU,
    fabric: &mut CpuFabric<T>,
    start: u64,
    size: u64,
    prot: MemProt,
    r: Result<(), MemoryFault>,
)
    requires
        call_ensures(IoMMU::protect::<T>, (mmu, fabric, start, size, prot), r),
    ensures
        r is Ok <==> start % 4096 == 0 && size % 4096 == 0 && start + size
            <= 0x1_0000_0000_0000_0000 && forall|n: u64|
            start <= n * 4096 < start + size ==> #[trigger] old(mmu).table@.contains_key(n),
        final(fabric).store@ == old(fabric).store@,
        final(mmu).table@.dom() =~= old(mmu).table@.dom(),
        r is Err ==> final(mmu).table@ == old(mmu).table@,
        r is Ok ==> forall|n: u64|
            #![trigger final(mmu).table@[n]]
            old(mmu).table@.contains_key(n) ==> final(mmu).table@[n].source == old(
                mmu,
            ).table@[n].source && final(mmu).table@[n].protections == (if start <= n * 4096 < start
                + size {
                prot
            } else {
                old(mmu).table@[n].protections
            }),
{
    if start % 4096 == 0 && size % 4096 == 0 && start + size <= 0x1_0000_0000_0000_0000 && size
        > 0 {
        let access = PageTableAccess { start_page: start / 4096, page_count: size / 4096 };
        assert(access.start_page * 4096 == start);
        assert(access.page_count * 4096 == size);
        assert forall|n: u64|
            #![trigger access.contains(n as int)]
            access.contains(n as int) <==> start <= n * 4096 < start + size by {}
        if r is Ok {
            assert forall|n: u64|
                start <= n * 4096 < start + size implies #[trigger] old(mmu).table@.contains_key(
                n,
            ) by {
                assert(old(mmu).table@.contains_key((n as int) as u64));
            }
        } else {
            let page = choose|page: int|
                first_page(old(mmu).table@, access, false, page) && r->Err_0 == crate::fault::gp(
                    (page * 4096) as u64,
                );
            assert(!old(mmu).table@.contains_key(page as u64));
        }
    }
}

/// A fresh mapping can be read at once: every byte of it is zero where the
/// protections allow loads, and a load faults at its address where they do not.
pub proof fn law_map_then_load<T: ICache, C: LookupCache>(
    mmu: &mut IoMMU,
    fabric: &mut CpuFabric<T>,
    base: u64,
    size: u64,
    lazy: bool,
    shared: bool,
    prot: MemProt,
    cache: &mut C,
    a: u64,
    r: Result<u8, MemoryFault>,
)
    requires
        call_ensures(IoMMU::map::<T>, (mmu, fabric, base, size, lazy, shared, prot), Ok(())),
        call_ensures(IoMMU::load_byte::<T, C>, (&*final(mmu), &*final(fabric), cache, a), r),
        base <= a < base + size,
    ensures
        prot.read ==> r == Ok::<u8, MemoryFault>(0),
        !prot.read ==> (r matches Err(fault) && fault.reason is GeneralProtection && fault.vaddr
            == a),
{
    law_map(mmu, fabric, base, size, lazy, shared, prot, Ok(()));
    let n = a / 4096;
    assert(base <= n * 4096 < base + size);
    assert(final(mmu).table@.contains_key(n));
    assert(final(mmu).table@[n].protections == prot);
}

/// Nothing can be read where memory was unmapped: a load faults at the base of
/// the page.
pub proof fn law_unmap_then_load<T: ICache, C: LookupCache>(
    mmu: &mut IoMMU,
    fabric: &mut CpuFabric<T>,
    start: u64,
    size: u64,
    cache: &mut C,
    a: u64,
    r: Result<u8, MemoryFault>,
)
    requires
        call_ensures(IoMMU::unmap::<T>, (mmu, fabric, start, size), Ok(())),
        call_ensures(IoMMU::load_byte::<T, C>, (&*final(mmu), &*final(fabric), cache, a), r),
        start <= a < start + size,
    ensures
        r matches Err(fault) && fault.reason is GeneralProtection && fault.vaddr == a - a % 4096,
{
    law_unmap_pages(mmu, fabric, start, size, Ok(()));
    let n = a / 4096;
    assert(start <= n * 4096 < start + size);
    assert(!final(mmu).table@.contains_key(n));
}

/// Every byte of page `b` is zero.
pub open spec fn reads_as_zeros<T: ICache>(fabric: CpuFabric<T>, b: usize) -> bool {
    let bytes = fabric.store@.host[fabric.store@.pages[b as int].allocated_page.index as int].bytes;
    bytes.len() == 4096 && forall|o: int| 0 <= o < 4096 ==> bytes[o] == 0
}

} // verus!
