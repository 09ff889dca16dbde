//! What loads and stores of byte ranges have to do with what the guest sees.
use vstd::prelude::*;
use crate::access::{
    access_fault, accessible, bytes_at, can_access, last_inaccessible, lemma_same_pages,
    pages_touched, store_runs,
};
use crate::cpu_fabric::CpuFabric;
use crate::fault::MemoryFault;
use crate::guest_laws::{
    lemma_guest, may_load, may_store, noted_at, page_at, place_at, seen_at, stored,
};
use crate::icache::ICache;
use crate::io_mmu::IoMMU;
use crate::laws::{
    covered, host_of, lemma_last_run, lemma_store_keeps, lemma_store_shows, unaliased,
};
use crate::lookup_cache::LookupCache;
use crate::memory::{offset_of, page_of, MemProt};
use crate::page_store::StoreView;
use crate::page_table::{resolve, table_wf, PageEntry, PageSource};

verus! {

/// An access may touch `a`: there is memory, a store may write it in place, and
/// unless the access is forced the protections allow it.
pub open spec fn open_to(
    st: StoreView,
    table: Map<u64, PageEntry>,
    a: int,
    store: bool,
    forced: bool,
) -> bool {
    &&& page_at(st, table, a) is Some
    &&& if store {
        if forced {
            !(table[(a / 4096) as u64].source matches PageSource::Private {
                write_protected: true,
                ..
            })
        } else {
            may_store(table, a)
        }
    } else {
        forced || may_load(table, a)
    }
}

/// The range lies in the address space, and an access may touch all of it.
pub open spec fn range_open(
    st: StoreView,
    table: Map<u64, PageEntry>,
    vaddr: int,
    len: int,
    store: bool,
    forced: bool,
) -> bool {
    len == 0 || (vaddr + len <= 0x1_0000_0000_0000_0000 && forall|i: int|
        #![trigger page_at(st, table, vaddr + i)]
        0 <= i < len ==> open_to(st, table, vaddr + i, store, forced))
}

/// Where an access to a range that is not open faults: at the last address
/// where the range leaves the address space, and otherwise at the base of the
/// last page that it may not touch.
pub open spec fn range_fault(
    st: StoreView,
    table: Map<u64, PageEntry>,
    vaddr: int,
    len: int,
    store: bool,
    forced: bool,
    fault: MemoryFault,
) -> bool {
    &&& fault.reason is GeneralProtection
    &&& if vaddr + len > 0x1_0000_0000_0000_0000 {
        fault.vaddr == 0xffff_ffff_ffff_ffff
    } else {
        exists|i: int|
            #![trigger page_at(st, table, vaddr + i)]
            {
                &&& 0 <= i < len
                &&& !open_to(st, table, vaddr + i, store, forced)
                &&& fault.vaddr == (vaddr + i) - (vaddr + i) % 4096
                &&& forall|j: int|
                    #![trigger page_at(st, table, vaddr + j)]
                    i <= j < len && (vaddr + j) / 4096 > (vaddr + i) / 4096 ==> open_to(
                        st,
                        table,
                        vaddr + j,
                        store,
                        forced,
                    )
            }
    }
}

/// What an access asks of the protections.
spec fn asked(store: bool, forced: bool) -> Option<MemProt> {
    if forced {
        None
    } else if store {
        Some(MemProt::spec_write())
    } else {
        Some(MemProt::spec_read())
    }
}

proof fn lemma_open(st: StoreView, table: Map<u64, PageEntry>, a: int, store: bool, forced: bool)
    requires
        0 <= a < 0x1_0000_0000_0000_0000,
    ensures
        open_to(st, table, a, store, forced) == accessible(
            st,
            table,
            page_of(a),
            asked(store, forced),
            store,
        ),
{
    lemma_guest(st, table, a);
}

/// An address of the range in its page `n`.
spec fn address_in(vaddr: int, n: int) -> int {
    if n * 4096 > vaddr {
        n * 4096
    } else {
        vaddr
    }
}

proof fn lemma_address_in(vaddr: int, len: int, n: int)
    requires
        0 <= vaddr,
        len > 0,
        page_of(vaddr) <= n <= page_of(vaddr + len - 1),
    ensures
        vaddr <= address_in(vaddr, n) < vaddr + len,
        address_in(vaddr, n) / 4096 == n,
{
}

proof fn lemma_range_open(
    st: StoreView,
    table: Map<u64, PageEntry>,
    vaddr: int,
    len: int,
    store: bool,
    forced: bool,
)
    requires
        0 <= vaddr < 0x1_0000_0000_0000_0000,
        0 <= len,
    ensures
        range_open(st, table, vaddr, len, store, forced) == can_access(
            st,
            table,
            vaddr,
            len,
            asked(store, forced),
            store,
        ),
{
    if len > 0 && vaddr + len <= 0x1_0000_0000_0000_0000 {
        if range_open(st, table, vaddr, len, store, forced) {
            assert forall|n: int|
                page_of(vaddr) <= n <= page_of(vaddr + len - 1) implies #[trigger] accessible(
                st,
                table,
                n,
                asked(store, forced),
                store,
            ) by {
                lemma_address_in(vaddr, len, n);
                let i = address_in(vaddr, n) - vaddr;
                assert(page_at(st, table, vaddr + i) == page_at(st, table, address_in(vaddr, n)));
                assert(open_to(st, table, vaddr + i, store, forced));
                lemma_open(st, table, vaddr + i, store, forced);
            }
        }
        if can_access(st, table, vaddr, len, asked(store, forced), store) {
            assert forall|i: int|
                #![trigger page_at(st, table, vaddr + i)]
                0 <= i < len implies open_to(st, table, vaddr + i, store, forced) by {
                let n = page_of(vaddr + i);
                assert(page_of(vaddr) <= n <= page_of(vaddr + len - 1));
                assert(accessible(st, table, n, asked(store, forced), store));
                lemma_open(st, table, vaddr + i, store, forced);
            }
        }
    }
}

proof fn lemma_range_fault(
    st: StoreView,
    table: Map<u64, PageEntry>,
    vaddr: int,
    len: int,
    store: bool,
    forced: bool,
    fault: MemoryFault,
)
    requires
        0 <= vaddr < 0x1_0000_0000_0000_0000,
        0 < len,
        access_fault(st, table, vaddr, len, asked(store, forced), store, fault),
    ensures
        range_fault(st, table, vaddr, len, store, forced, fault),
{
    if vaddr + len <= 0x1_0000_0000_0000_0000 {
        let n = choose|n: int| #[trigger]
            last_inaccessible(st, table, vaddr, len, asked(store, forced), store, n) && fault
                == crate::fault::gp((n * 4096) as u64);
        lemma_address_in(vaddr, len, n);
        let i = address_in(vaddr, n) - vaddr;
        lemma_open(st, table, vaddr + i, store, forced);
        assert(page_at(st, table, vaddr + i) == page_at(st, table, address_in(vaddr, n)));
        assert forall|j: int|
            #![trigger page_at(st, table, vaddr + j)]
            i <= j < len && (vaddr + j) / 4096 > (vaddr + i) / 4096 implies open_to(
            st,
            table,
            vaddr + j,
            store,
            forced,
        ) by {
            let m = page_of(vaddr + j);
            assert(n < m <= page_of(vaddr + len - 1));
            assert(accessible(st, table, m, asked(store, forced), store));
            lemma_open(st, table, vaddr + j, store, forced);
        }
    }
}

proof fn lemma_range_bytes(st: StoreView, table: Map<u64, PageEntry>, vaddr: int, len: int, forced: bool)
    requires
        0 <= vaddr,
        0 <= len,
        range_open(st, table, vaddr, len, false, forced),
    ensures
        forall|i: int|
            0 <= i < len ==> Some(#[trigger] bytes_at(st, table, vaddr, len as nat)[i]) == seen_at(
                st,
                table,
                vaddr + i,
            ),
{
    assert forall|i: int| 0 <= i < len implies Some(
        #[trigger] bytes_at(st, table, vaddr, len as nat)[i],
    ) == seen_at(st, table, vaddr + i) by {
        assert(page_at(st, table, vaddr + i) is Some);
        lemma_guest(st, table, vaddr + i);
    }
}

/// A load of a range into a new buffer gives the bytes that the guest sees
/// there, exactly where all of them may be loaded.
pub proof fn law_load_range<T: ICache, C: LookupCache>(
    mmu: &IoMMU,
    fabric: &CpuFabric<T>,
    cache: &mut C,
    vaddr: u64,
    len: usize,
    forced: bool,
    r: Result<Vec<u8>, MemoryFault>,
)
    requires
        !forced ==> call_ensures(
            IoMMU::load_into_uninit::<T, C>,
            (mmu, fabric, cache, vaddr, len),
            r,
        ),
        forced ==> call_ensures(
            IoMMU::load_into_uninit_force::<T, C>,
            (mmu, fabric, cache, vaddr, len),
            r,
        ),
    ensures
        r is Ok <==> range_open(
            fabric.store@,
            mmu.table@,
            vaddr as int,
            len as int,
            false,
            forced,
        ),
        r matches Ok(bytes) ==> bytes@.len() == len && forall|i: int|
            0 <= i < len ==> Some(#[trigger] bytes@[i]) == seen_at(
                fabric.store@,
                mmu.table@,
                vaddr + i,
            ),
        r matches Err(fault) ==> range_fault(
            fabric.store@,
            mmu.table@,
            vaddr as int,
            len as int,
            false,
            forced,
            fault,
        ),
{
    let st = fabric.store@;
    let table = mmu.table@;
    lemma_range_open(st, table, vaddr as int, len as int, false, forced);
    match r {
        Ok(_) => {
            lemma_range_bytes(st, table, vaddr as int, len as int, forced);
        },
        Err(fault) => {
            lemma_range_fault(st, table, vaddr as int, len as int, false, forced, fault);
        },
    }
}

/// A load of a range into a buffer fills it with the bytes that the guest sees
/// there, exactly where all of them may be loaded; otherwise the buffer stays.
pub proof fn law_load_into<T: ICache, C: LookupCache>(
    mmu: &IoMMU,
    fabric: &CpuFabric<T>,
    cache: &mut C,
    vaddr: u64,
    mem: &mut [u8],
    forced: bool,
    r: Result<(), MemoryFault>,
)
    requires
        !forced ==> call_ensures(IoMMU::load::<T, C>, (mmu, fabric, cache, vaddr, mem), r),
        forced ==> call_ensures(IoMMU::load_force::<T, C>, (mmu, fabric, cache, vaddr, mem), r),
    ensures
        r is Ok <==> range_open(
            fabric.store@,
            mmu.table@,
            vaddr as int,
            old(mem)@.len() as int,
            false,
            forced,
        ),
        r is Ok ==> final(mem)@.len() == old(mem)@.len() && forall|i: int|
            0 <= i < old(mem)@.len() ==> Some(#[trigger] final(mem)@[i]) == seen_at(
                fabric.store@,
                mmu.table@,
                vaddr + i,
            ),
        r matches Err(fault) ==> final(mem)@ == old(mem)@ && range_fault(
            fabric.store@,
            mmu.table@,
            vaddr as int,
            old(mem)@.len() as int,
            false,
            forced,
            fault,
        ),
{
    let st = fabric.store@;
    let table = mmu.table@;
    let len = old(mem)@.len() as int;
    lemma_range_open(st, table, vaddr as int, len, false, forced);
    match r {
        Ok(_) => {
            lemma_range_bytes(st, table, vaddr as int, len, forced);
        },
        Err(fault) => {
            lemma_range_fault(st, table, vaddr as int, len, false, forced, fault);
        },
    }
}

/// One of the first `k` pages of a store notes it in backed page `p`.
spec fn notes(
    st: StoreView,
    table: Map<u64, PageEntry>,
    vaddr: int,
    k: nat,
    p: int,
) -> bool {
    exists|n: int|
        page_of(vaddr) <= n < page_of(vaddr) + k && (#[trigger] resolve(st, table, n) matches Some(
            page,
        ) && page.backing == p && page.ptr.flags.spec_must_dirty())
}

proof fn lemma_runs_note(
    a: StoreView,
    space: nat,
    table: Map<u64, PageEntry>,
    vaddr: int,
    data: Seq<u8>,
    required: Option<MemProt>,
    k: nat,
)
    requires
        a.wf(),
        table_wf(a, space, table),
        0 <= vaddr,
        data.len() > 0,
        can_access(a, table, vaddr, data.len() as int, required, true),
        page_of(vaddr) + k <= page_of(vaddr + data.len() - 1) + 1,
    ensures
        ({
            let b = store_runs(a, table, vaddr, data, k);
            forall|p: int|
                #![trigger b.pages[p]]
                0 <= p < a.pages.len() ==> {
                    let before = a.pages[p].dirty_page_flags;
                    let after = b.pages[p].dirty_page_flags;
                    &&& notes(a, table, vaddr, k, p) ==> after % 2 == 1 && after / 2 == before / 2
                    &&& !notes(a, table, vaddr, k, p) ==> after == before
                }
        }),
    decreases k,
{
    if k > 0 {
        let j = (k - 1) as nat;
        let c = store_runs(a, table, vaddr, data, j);
        let b = store_runs(a, table, vaddr, data, k);
        let n = page_of(vaddr) + j;
        lemma_runs_note(a, space, table, vaddr, data, required, j);
        lemma_last_run(a, space, table, vaddr, data, required, j);
        lemma_same_pages(a, c, space, table);
        assert(accessible(a, table, n, required, true));
        assert(resolve(c, table, n) == resolve(a, table, n));
        let page = resolve(a, table, n)->0;
        assert(page.backing < a.pages.len()) by {
            crate::access::lemma_resolved(a, space, table, n);
        }
        assert forall|p: int|
            #![trigger b.pages[p]]
            0 <= p < a.pages.len() implies {
            let before = a.pages[p].dirty_page_flags;
            let after = b.pages[p].dirty_page_flags;
            &&& notes(a, table, vaddr, k, p) ==> after % 2 == 1 && after / 2 == before / 2
            &&& !notes(a, table, vaddr, k, p) ==> after == before
        } by {
            assert(a.page_ok(p));
            assert(c.pages[p].dirty_page_flags <= 3);
            let here = page.backing == p && page.ptr.flags.spec_must_dirty();
            assert(notes(a, table, vaddr, k, p) == (notes(a, table, vaddr, j, p) || here)) by {
                if notes(a, table, vaddr, k, p) {
                    let m = choose|m: int|
                        page_of(vaddr) <= m < page_of(vaddr) + k && (#[trigger] resolve(a, table, m)
                            matches Some(page) && page.backing == p
                            && page.ptr.flags.spec_must_dirty());
                    assert(resolve(a, table, m) is Some);
                }
            }
        }
    }
}

/// No two addresses of the range stand for the same byte of host memory.
pub open spec fn range_apart(st: StoreView, table: Map<u64, PageEntry>, vaddr: int, len: int) -> bool {
    forall|i: int, j: int|
        #![trigger place_at(st, table, vaddr + i), place_at(st, table, vaddr + j)]
        0 <= i < j < len ==> place_at(st, table, vaddr + i) != place_at(st, table, vaddr + j)
}

proof fn lemma_unaliased(st: StoreView, table: Map<u64, PageEntry>, vaddr: int, len: int)
    requires
        0 <= vaddr,
        len > 0,
        vaddr + len <= 0x1_0000_0000_0000_0000,
        range_open(st, table, vaddr, len, true, true),
        range_apart(st, table, vaddr, len),
    ensures
        unaliased(st, table, vaddr, len),
{
    assert forall|m: int, n: int, o: int|
        #![trigger covered(vaddr, len, m, o), covered(vaddr, len, n, o)]
        page_of(vaddr) <= m < n <= page_of(vaddr + len - 1) && covered(vaddr, len, m, o) && covered(
            vaddr,
            len,
            n,
            o,
        ) implies host_of(st, table, m) != host_of(st, table, n) by {
        let i = m * 4096 + o - vaddr;
        let j = n * 4096 + o - vaddr;
        assert(0 <= o < 4096);
        assert(0 <= i < j < len);
        assert(page_at(st, table, vaddr + i) is Some);
        assert(page_at(st, table, vaddr + j) is Some);
        lemma_guest(st, table, vaddr + i);
        lemma_guest(st, table, vaddr + j);
        assert(page_of(vaddr + i) == m);
        assert(page_of(vaddr + j) == n);
        assert(place_at(st, table, vaddr + i) != place_at(st, table, vaddr + j));
    }
}

/// What the pages of a store leave behind together.
proof fn lemma_range_stored(
    a: StoreView,
    space: nat,
    table: Map<u64, PageEntry>,
    vaddr: int,
    data: Seq<u8>,
    forced: bool,
)
    requires
        a.wf(),
        table_wf(a, space, table),
        0 <= vaddr < 0x1_0000_0000_0000_0000,
        data.len() > 0,
        range_open(a, table, vaddr, data.len() as int, true, forced),
        range_apart(a, table, vaddr, data.len() as int),
    ensures
        stored(
            a,
            store_runs(a, table, vaddr, data, pages_touched(vaddr, data.len() as int)),
            table,
            vaddr,
            data,
        ),
{
    let len = data.len() as int;
    let k = pages_touched(vaddr, len);
    let b = store_runs(a, table, vaddr, data, k);
    let required = asked(true, forced);
    lemma_range_open(a, table, vaddr, len, true, forced);
    lemma_last_run(a, space, table, vaddr, data, required, k);
    lemma_runs_note(a, space, table, vaddr, data, required, k);
    assert(range_open(a, table, vaddr, len, true, true));
    lemma_unaliased(a, table, vaddr, len);
    assert forall|c: int| #[trigger] place_at(b, table, c) == place_at(a, table, c) by {
        let n = (c / 4096) as u64;
        if table.contains_key(n) {
            assert(crate::page_table::entry_ok(a, space, n, table[n]));
            if let PageSource::Object { slot, .. } = table[n].source {
                assert(a.slot_ok(slot as int));
            }
        }
        if let Some(q) = page_at(a, table, c) {
            assert(b.pages[q as int].allocated_page == a.pages[q as int].allocated_page);
        }
    }
    assert forall|i: int| 0 <= i < len implies page_at(a, table, #[trigger] (vaddr + i)) is Some by {
        assert(page_at(a, table, vaddr + i) is Some);
    }
    assert forall|i: int| 0 <= i < len implies seen_at(b, table, vaddr + i) == Some(
        #[trigger] data[i],
    ) by {
        let c = vaddr + i;
        assert(page_at(a, table, c) is Some);
        lemma_guest(a, table, c);
        assert(place_at(b, table, c) == place_at(a, table, c));
        let n = page_of(c);
        let o = offset_of(c);
        assert(page_of(vaddr) <= n <= page_of(vaddr + len - 1));
        assert(covered(vaddr, len, n, o));
        lemma_store_shows(a, space, table, vaddr, data, required, k, n, o);
        assert(n * 4096 + o - vaddr == i);
    }
    assert forall|h: int, o: int|
        #![trigger b.host[h].bytes[o]]
        0 <= h < a.host.len() && 0 <= o < a.host[h].bytes.len() && (forall|i: int|
            0 <= i < len ==> #[trigger] place_at(a, table, vaddr + i) != Some((h, o))) implies b.host[h].bytes[o]
        == a.host[h].bytes[o] by {
        assert(a.host_ok(h));
        assert forall|n: int|
            page_of(vaddr) <= n < page_of(vaddr) + k implies #[trigger] host_of(a, table, n) != h
            || !covered(vaddr, len, n, o) by {
            if covered(vaddr, len, n, o) {
                let i = n * 4096 + o - vaddr;
                assert(0 <= i < len);
                assert(page_at(a, table, vaddr + i) is Some);
                lemma_guest(a, table, vaddr + i);
                assert(page_of(vaddr + i) == n);
                assert(place_at(a, table, vaddr + i) != Some((h, o)));
            }
        }
        lemma_store_keeps(a, space, table, vaddr, data, required, k, h, o);
    }
    assert forall|p: int|
        #![trigger b.pages[p]]
        0 <= p < a.pages.len() implies {
        let noted = exists|i: int|
            0 <= i < data.len() && noted_at(table, vaddr + i) && #[trigger] page_at(
                a,
                table,
                vaddr + i,
            ) == Some(p as usize);
        let before = a.pages[p].dirty_page_flags;
        let after = b.pages[p].dirty_page_flags;
        &&& noted ==> after % 2 == 1 && after / 2 == before / 2
        &&& !noted ==> after == before
    } by {
        if exists|i: int|
            0 <= i < data.len() && noted_at(table, vaddr + i) && #[trigger] page_at(
                a,
                table,
                vaddr + i,
            ) == Some(p as usize) {
            let i = choose|i: int|
                0 <= i < data.len() && noted_at(table, vaddr + i) && #[trigger] page_at(
                    a,
                    table,
                    vaddr + i,
                ) == Some(p as usize);
            lemma_guest(a, table, vaddr + i);
            let n = page_of(vaddr + i);
            assert(page_of(vaddr) <= n < page_of(vaddr) + k);
            assert(resolve(a, table, n) is Some);
            assert(notes(a, table, vaddr, k, p));
        }
        if notes(a, table, vaddr, k, p) {
            let n = choose|n: int|
                page_of(vaddr) <= n < page_of(vaddr) + k && (#[trigger] resolve(a, table, n)
                    matches Some(page) && page.backing == p && page.ptr.flags.spec_must_dirty());
            lemma_address_in(vaddr, len, n);
            let i = address_in(vaddr, n) - vaddr;
            lemma_guest(a, table, vaddr + i);
            assert(page_at(a, table, vaddr + i) == Some(p as usize));
        }
    }
}

/// A store of a range goes through exactly where all of it may be stored to,
/// and leaves the data behind; otherwise nothing changes.
pub proof fn law_store_range<T: ICache, C: LookupCache>(
    mmu: &IoMMU,
    fabric: &mut CpuFabric<T>,
    cache: &mut C,
    vaddr: u64,
    mem: &[u8],
    forced: bool,
    r: Result<(), MemoryFault>,
)
    requires
        mmu.wf(*old(fabric)),
        !forced ==> call_ensures(IoMMU::store::<T, C>, (mmu, fabric, cache, vaddr, mem), r),
        forced ==> call_ensures(IoMMU::store_force::<T, C>, (mmu, fabric, cache, vaddr, mem), r),
    ensures
        r is Ok <==> range_open(
            old(fabric).store@,
            mmu.table@,
            vaddr as int,
            mem@.len() as int,
            true,
            forced,
        ),
        r is Ok && mem@.len() > 0 && range_apart(
            old(fabric).store@,
            mmu.table@,
            vaddr as int,
            mem@.len() as int,
        ) ==> stored(
            old(fabric).store@,
            final(fabric).store@,
            mmu.table@,
            vaddr as int,
            mem@,
        ),
        mem@.len() == 0 ==> final(fabric).store@ == old(fabric).store@,
        r matches Err(fault) ==> final(fabric).store@ == old(fabric).store@ && range_fault(
            old(fabric).store@,
            mmu.table@,
            vaddr as int,
            mem@.len() as int,
            true,
            forced,
            fault,
        ),
{
    let a = old(fabric).store@;
    let table = mmu.table@;
    let len = mem@.len() as int;
    lemma_range_open(a, table, vaddr as int, len, true, forced);
    match r {
        Ok(_) => {
            if len > 0 && range_apart(a, table, vaddr as int, len) {
                lemma_range_stored(a, mmu.table.space@, table, vaddr as int, mem@, forced);
            }
        },
        Err(fault) => {
            lemma_range_fault(a, table, vaddr as int, len, true, forced, fault);
        },
    }
}

} // verus!
