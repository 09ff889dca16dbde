//! What the guest sees of its memory, address by address, and what loads, stores
//! and fetches have to do with it.
use vstd::prelude::*;
use crate::access::{accessible, byte_at, bytes_at, lemma_resolved};
use crate::cpu_fabric::CpuFabric;
use crate::fault::MemoryFault;
use crate::icache::ICache;
use crate::io_mmu::IoMMU;
use crate::lookup_cache::LookupCache;
use crate::memops::{
    lemma_le2, lemma_le4, lemma_le8, lemma_le_value_of_to_le, lemma_pow256_values, to_le,
};
use crate::mapping_laws::law_map_extern;
use crate::memory::{page_of, MemProt, PagePointer};
use crate::page_store::{PageStore, StoreView};
use crate::page_table::{resolve, table_wf, PageEntry, PageSource};
use crate::scalar::{crosses, scalar_fault, store_scalar};

verus! {

/// The backed page behind the guest address `a`.
pub open spec fn page_at(st: StoreView, table: Map<u64, PageEntry>, a: int) -> Option<usize> {
    let n = (a / 4096) as u64;
    if table.contains_key(n) {
        match table[n].source {
            PageSource::Shared(b) => Some(b),
            PageSource::Private { page: b, .. } => Some(b),
            PageSource::Object { slot, .. } => st.slots[slot as int].page,
        }
    } else {
        None
    }
}

/// Where the byte at the guest address `a` stands: the host page, and the
/// offset in it.
pub open spec fn place_at(st: StoreView, table: Map<u64, PageEntry>, a: int) -> Option<(int, int)> {
    match page_at(st, table, a) {
        Some(b) => Some((st.pages[b as int].allocated_page.index as int, a % 4096)),
        None => None,
    }
}

/// The byte at the guest address `a`, if there is memory.
pub open spec fn seen_at(st: StoreView, table: Map<u64, PageEntry>, a: int) -> Option<u8> {
    match place_at(st, table, a) {
        Some((h, o)) => Some(st.host[h].bytes[o]),
        None => None,
    }
}

/// The protections allow loads from `a`.
pub open spec fn may_load(table: Map<u64, PageEntry>, a: int) -> bool {
    table[(a / 4096) as u64].protections.read
}

/// The protections allow stores to `a`, and its page may be written in place.
pub open spec fn may_store(table: Map<u64, PageEntry>, a: int) -> bool {
    let e = table[(a / 4096) as u64];
    e.protections.write && !(e.source matches PageSource::Private { write_protected: true, .. })
}

/// Stores to `a` have to be noted: its page is executable, or a page of a
/// shared object.
pub open spec fn noted_at(table: Map<u64, PageEntry>, a: int) -> bool {
    let e = table[(a / 4096) as u64];
    e.protections.execute || (e.source matches PageSource::Object { shared: true, .. })
}

/// The two ways to say what stands at an address agree.
pub(crate) proof fn lemma_guest(st: StoreView, table: Map<u64, PageEntry>, a: int)
    requires
        0 <= a < 0x1_0000_0000_0000_0000,
    ensures
        resolve(st, table, page_of(a)) is Some <==> page_at(st, table, a) is Some,
        resolve(st, table, page_of(a)) matches Some(page) ==> {
            &&& page_at(st, table, a) == Some(page.backing)
            &&& place_at(st, table, a) == Some((page.ptr.page.index as int, a % 4096))
            &&& seen_at(st, table, a) == Some(byte_at(st, table, a))
            &&& accessible(st, table, page_of(a), Some(MemProt::spec_read()), false) == may_load(
                table,
                a,
            )
            &&& accessible(st, table, page_of(a), Some(MemProt::spec_write()), false) == may_store(
                table,
                a,
            )
            &&& page.ptr.flags.execute == table[(a / 4096) as u64].protections.execute
            &&& page.ptr.flags.spec_must_dirty() == noted_at(table, a)
        },
{
}

/// Where a scalar access of `n` bytes at `vaddr` faults, if it does. Memory has
/// to be there for all of it before permissions count.
pub open spec fn faults_at(
    st: StoreView,
    table: Map<u64, PageEntry>,
    vaddr: int,
    n: int,
    store: bool,
) -> Option<int> {
    let last = vaddr + n - 1;
    let allowed = |a: int|
        if store {
            may_store(table, a)
        } else {
            may_load(table, a)
        };
    if page_at(st, table, vaddr) is None {
        Some(vaddr - vaddr % 4096)
    } else if last >= 0x1_0000_0000_0000_0000 {
        Some(0xffff_ffff_ffff_ffff)
    } else if page_at(st, table, last) is None {
        Some(last - last % 4096)
    } else if !allowed(vaddr) {
        Some(vaddr)
    } else if !allowed(last) {
        Some(last - last % 4096)
    } else {
        None
    }
}

pub(crate) proof fn lemma_faults(st: StoreView, table: Map<u64, PageEntry>, vaddr: u64, n: int, store: bool)
    requires
        0 < n <= 8,
    ensures
        ({
            let prot = if store {
                MemProt::spec_write()
            } else {
                MemProt::spec_read()
            };
            match faults_at(st, table, vaddr as int, n, store) {
                Some(at) => scalar_fault(st, table, vaddr, n, prot) == Some(at as u64),
                None => scalar_fault(st, table, vaddr, n, prot) is None,
            }
        }),
{
    let last = vaddr + n - 1;
    lemma_guest(st, table, vaddr as int);
    assert(page_of(vaddr as int) * 4096 == vaddr - vaddr % 4096);
    if last < 0x1_0000_0000_0000_0000 {
        lemma_guest(st, table, last);
        assert(page_of(last) * 4096 == last - last % 4096);
        if crosses(vaddr as int, n) {
            assert(page_of(last) == page_of(vaddr as int) + 1);
        } else {
            assert(page_of(last) == page_of(vaddr as int));
        }
    } else {
        assert(crosses(vaddr as int, n));
        assert(page_of(vaddr as int) == 0xf_ffff_ffff_ffff);
    }
}

/// A byte load gives what the guest sees where the protections allow loads. It
/// faults at the base of the page where there is no memory, and at the address
/// where loads are not allowed.
pub proof fn law_load_byte<T: ICache, C: LookupCache>(
    mmu: &IoMMU,
    fabric: &CpuFabric<T>,
    cache: &mut C,
    vaddr: u64,
    r: Result<u8, MemoryFault>,
)
    requires
        call_ensures(IoMMU::load_byte::<T, C>, (mmu, fabric, cache, vaddr), r),
    ensures
        match seen_at(fabric.store@, mmu.table@, vaddr as int) {
            None => r matches Err(fault) && fault.reason is GeneralProtection && fault.vaddr == vaddr
                - vaddr % 4096,
            Some(byte) => if may_load(mmu.table@, vaddr as int) {
                r == Ok::<u8, MemoryFault>(byte)
            } else {
                r matches Err(fault) && fault.reason is GeneralProtection && fault.vaddr == vaddr
            },
        },
{
    lemma_guest(fabric.store@, mmu.table@, vaddr as int);
    lemma_faults(fabric.store@, mmu.table@, vaddr, 1, false);
}

/// The bytes of a scalar are those the guest sees, the lowest first.
pub(crate) proof fn lemma_bytes_seen(st: StoreView, table: Map<u64, PageEntry>, vaddr: u64, n: int)
    requires
        0 < n <= 8,
        faults_at(st, table, vaddr as int, n, false) is None,
    ensures
        forall|i: int|
            0 <= i < n ==> seen_at(st, table, vaddr + i) == Some(
                #[trigger] bytes_at(st, table, vaddr as int, n as nat)[i],
            ),
{
    assert forall|i: int| 0 <= i < n implies seen_at(st, table, vaddr + i) == Some(
        #[trigger] bytes_at(st, table, vaddr as int, n as nat)[i],
    ) by {
        let last = vaddr + n - 1;
        lemma_guest(st, table, vaddr + i);
        lemma_guest(st, table, vaddr as int);
        lemma_guest(st, table, last);
        assert((vaddr + i) / 4096 == vaddr as int / 4096 || (vaddr + i) / 4096 == last / 4096);
    }
}

/// The number whose bytes the guest sees at `vaddr`, the lowest first.
pub open spec fn seen_number(st: StoreView, table: Map<u64, PageEntry>, vaddr: int, n: int) -> int {
    let b = |i: int| seen_at(st, table, vaddr + i)->0 as int;
    if n == 2 {
        b(0) + b(1) * 0x100
    } else if n == 4 {
        b(0) + b(1) * 0x100 + b(2) * 0x1_0000 + b(3) * 0x100_0000
    } else {
        b(0) + b(1) * 0x100 + b(2) * 0x1_0000 + b(3) * 0x100_0000 + b(4) * 0x1_0000_0000 + b(5)
            * 0x100_0000_0000 + b(6) * 0x1_0000_0000_0000 + b(7) * 0x100_0000_0000_0000
    }
}

/// Scalar loads give the little-endian number that the guest sees, or fault.
pub proof fn law_load_scalar<T: ICache, C: LookupCache>(
    mmu: &IoMMU,
    fabric: &CpuFabric<T>,
    cache: &mut C,
    vaddr: u64,
    r16: Result<u16, MemoryFault>,
    r32: Result<u32, MemoryFault>,
    r64: Result<u64, MemoryFault>,
)
    ensures
        call_ensures(IoMMU::load16_le::<T, C>, (mmu, fabric, cache, vaddr), r16) ==> match faults_at(
            fabric.store@,
            mmu.table@,
            vaddr as int,
            2,
            false,
        ) {
            Some(at) => r16 matches Err(fault) && fault.reason is GeneralProtection && fault.vaddr
                == at,
            None => r16 matches Ok(value) && value == seen_number(
                fabric.store@,
                mmu.table@,
                vaddr as int,
                2,
            ),
        },
        call_ensures(IoMMU::load32_le::<T, C>, (mmu, fabric, cache, vaddr), r32) ==> match faults_at(
            fabric.store@,
            mmu.table@,
            vaddr as int,
            4,
            false,
        ) {
            Some(at) => r32 matches Err(fault) && fault.reason is GeneralProtection && fault.vaddr
                == at,
            None => r32 matches Ok(value) && value == seen_number(
                fabric.store@,
                mmu.table@,
                vaddr as int,
                4,
            ),
        },
        call_ensures(IoMMU::load64_le::<T, C>, (mmu, fabric, cache, vaddr), r64) ==> match faults_at(
            fabric.store@,
            mmu.table@,
            vaddr as int,
            8,
            false,
        ) {
            Some(at) => r64 matches Err(fault) && fault.reason is GeneralProtection && fault.vaddr
                == at,
            None => r64 matches Ok(value) && value == seen_number(
                fabric.store@,
                mmu.table@,
                vaddr as int,
                8,
            ),
        },
{
    let st = fabric.store@;
    let table = mmu.table@;
    lemma_faults(st, table, vaddr, 2, false);
    lemma_faults(st, table, vaddr, 4, false);
    lemma_faults(st, table, vaddr, 8, false);
    if faults_at(st, table, vaddr as int, 2, false) is None {
        lemma_bytes_seen(st, table, vaddr, 2);
        lemma_le2(bytes_at(st, table, vaddr as int, 2));
    }
    if faults_at(st, table, vaddr as int, 4, false) is None {
        lemma_bytes_seen(st, table, vaddr, 4);
        lemma_le4(bytes_at(st, table, vaddr as int, 4));
    }
    if faults_at(st, table, vaddr as int, 8, false) is None {
        lemma_bytes_seen(st, table, vaddr, 8);
        lemma_le8(bytes_at(st, table, vaddr as int, 8));
    }
}

/// A fetch gives the instruction word that the guest sees at an aligned address
/// of an executable page.
pub proof fn law_fetch<T: ICache, C: LookupCache>(
    mmu: &IoMMU,
    fabric: &CpuFabric<T>,
    cache: &mut C,
    vaddr: u64,
    r: Result<u32, MemoryFault>,
)
    requires
        call_ensures(IoMMU::fetch_aarch64::<T, C>, (mmu, fabric, cache, vaddr), r),
    ensures
        vaddr % 4 != 0 ==> (r matches Err(fault) && fault.vaddr == vaddr),
        vaddr % 4 == 0 && page_at(fabric.store@, mmu.table@, vaddr as int) is None ==> (r matches Err(
            fault,
        ) && fault.vaddr == vaddr - vaddr % 4096),
        vaddr % 4 == 0 && page_at(fabric.store@, mmu.table@, vaddr as int) is Some
            && !mmu.table@[vaddr / 4096].protections.execute ==> (r matches Err(fault)
            && fault.vaddr == vaddr),
        vaddr % 4 == 0 && page_at(fabric.store@, mmu.table@, vaddr as int) is Some
            && mmu.table@[vaddr / 4096].protections.execute ==> (r matches Ok(word) && word
            == seen_number(fabric.store@, mmu.table@, vaddr as int, 4)),
{
    let st = fabric.store@;
    let table = mmu.table@;
    lemma_guest(st, table, vaddr as int);
    assert(page_of(vaddr as int) * 4096 == vaddr - vaddr % 4096);
    if vaddr % 4 == 0 && page_at(st, table, vaddr as int) is Some {
        let bytes = bytes_at(st, table, vaddr as int, 4);
        lemma_le4(bytes);
        assert forall|i: int| 0 <= i < 4 implies seen_at(st, table, vaddr + i) == Some(
            #[trigger] bytes[i],
        ) by {
            assert((vaddr + i) / 4096 == vaddr as int / 4096);
            lemma_guest(st, table, vaddr + i);
        }
    }
}

/// What a store of `data` at `vaddr` leaves behind: the memory stays where it
/// is, every address of the range shows the data, and every byte that is not
/// shown through the range is as it was. Exactly the pages of the range whose
/// stores have to be noted are dirty then that need not have been before.
pub open spec fn stored(
    a: StoreView,
    b: StoreView,
    table: Map<u64, PageEntry>,
    vaddr: int,
    data: Seq<u8>,
) -> bool {
    &&& forall|c: int| #[trigger] place_at(b, table, c) == place_at(a, table, c)
    &&& forall|i: int|
        0 <= i < data.len() ==> seen_at(b, table, vaddr + i) == Some(#[trigger] data[i])
    &&& b.host.len() == a.host.len()
    &&& forall|h: int, o: int|
        #![trigger b.host[h].bytes[o]]
        0 <= h < a.host.len() && 0 <= o < a.host[h].bytes.len() && (forall|i: int|
            0 <= i < data.len() ==> #[trigger] place_at(a, table, vaddr + i) != Some((h, o)))
            ==> b.host[h].bytes[o] == a.host[h].bytes[o]
    &&& b.pages.len() == a.pages.len()
    &&& b.slots == a.slots
    &&& forall|p: int|
        #![trigger b.pages[p]]
        0 <= p < a.pages.len() ==> {
            let noted = exists|i: int|
                0 <= i < data.len() && noted_at(table, vaddr + i) && #[trigger] page_at(
                    a,
                    table,
                    vaddr + i,
                ) == Some(p as usize);
            let before = a.pages[p].dirty_page_flags;
            let after = b.pages[p].dirty_page_flags;
            &&& noted ==> after % 2 == 1 && after / 2 == before / 2
            &&& !noted ==> after == before
        }
}

/// A page that resolves has its memory.
pub(crate) proof fn lemma_has_memory(st: StoreView, space: nat, table: Map<u64, PageEntry>, c: int)
    requires
        st.wf(),
        table_wf(st, space, table),
        0 <= c < 0x1_0000_0000_0000_0000,
        page_at(st, table, c) is Some,
    ensures
        ({
            let b = page_at(st, table, c)->0 as int;
            let h = (place_at(st, table, c)->0).0;
            &&& 0 <= b < st.pages.len()
            &&& 0 <= h < st.host.len()
            &&& st.host[h].bytes.len() == 4096
        }),
{
    lemma_guest(st, table, c);
    lemma_resolved(st, space, table, page_of(c));
}

/// A store inside one page.
proof fn lemma_stored_inside(
    a: StoreView,
    space: nat,
    table: Map<u64, PageEntry>,
    vaddr: int,
    data: Seq<u8>,
)
    requires
        a.wf(),
        table_wf(a, space, table),
        0 <= vaddr,
        vaddr + data.len() <= 0x1_0000_0000_0000_0000,
        0 < data.len() <= 8,
        page_at(a, table, vaddr) is Some,
        !crosses(vaddr, data.len() as int),
    ensures
        stored(a, store_scalar(a, table, vaddr, data), table, vaddr, data),
{
    let b = store_scalar(a, table, vaddr, data);
    let n = data.len() as int;
    lemma_guest(a, table, vaddr);
    lemma_has_memory(a, space, table, vaddr);
    let lo = resolve(a, table, page_of(vaddr))->0;
    let p = lo.backing as int;
    let h = lo.ptr.page.index as int;
    let off = vaddr % 4096;
    assert(a.page_ok(p));
    assert(b.host =~= a.write(h, off, data).host);
    assert forall|c: int| #[trigger] place_at(b, table, c) == place_at(a, table, c) by {
        if let Some(q) = page_at(a, table, c) {
            assert(b.pages[q as int].allocated_page == a.pages[q as int].allocated_page);
        }
    }
    assert forall|i: int| 0 <= i < n implies place_at(a, table, #[trigger] (vaddr + i)) == Some(
        (h, off + i),
    ) && page_at(a, table, vaddr + i) == Some(p as usize) && noted_at(table, vaddr + i) == noted_at(
        table,
        vaddr,
    ) by {
        assert((vaddr + i) / 4096 == vaddr / 4096);
    }
    assert forall|i: int| 0 <= i < n implies seen_at(b, table, vaddr + i) == Some(
        #[trigger] data[i],
    ) by {
        assert(place_at(a, table, vaddr + i) == Some((h, off + i)));
        assert(place_at(b, table, vaddr + i) == Some((h, off + i)));
        assert(b.host[h].bytes[off + i] == data[i]);
    }
    assert forall|g: int, o: int|
        #![trigger b.host[g].bytes[o]]
        0 <= g < a.host.len() && 0 <= o < a.host[g].bytes.len() && (forall|i: int|
            0 <= i < n ==> #[trigger] place_at(a, table, vaddr + i) != Some((g, o))) implies b.host[g].bytes[o]
        == a.host[g].bytes[o] by {
        if g == h && off <= o < off + n {
            assert(place_at(a, table, vaddr + (o - off)) == Some((h, off + (o - off))));
        }
    }
    assert forall|q: int|
        #![trigger b.pages[q]]
        0 <= q < a.pages.len() implies {
        let noted = exists|i: int|
            0 <= i < data.len() && noted_at(table, vaddr + i) && #[trigger] page_at(
                a,
                table,
                vaddr + i,
            ) == Some(q as usize);
        let before = a.pages[q].dirty_page_flags;
        let after = b.pages[q].dirty_page_flags;
        &&& noted ==> after % 2 == 1 && after / 2 == before / 2
        &&& !noted ==> after == before
    } by {
        assert(a.page_ok(q));
        assert(vaddr + 0 == vaddr);
        assert(page_at(a, table, vaddr + 0) == Some(p as usize));
    }
}

/// A store that reaches into the next page.
proof fn lemma_stored_across(
    a: StoreView,
    space: nat,
    table: Map<u64, PageEntry>,
    vaddr: int,
    data: Seq<u8>,
)
    requires
        a.wf(),
        table_wf(a, space, table),
        0 <= vaddr,
        vaddr + data.len() <= 0x1_0000_0000_0000_0000,
        0 < data.len() <= 8,
        page_at(a, table, vaddr) is Some,
        page_at(a, table, vaddr + data.len() - 1) is Some,
        crosses(vaddr, data.len() as int),
    ensures
        stored(a, store_scalar(a, table, vaddr, data), table, vaddr, data),
{
    let b = store_scalar(a, table, vaddr, data);
    let n = data.len() as int;
    let last = vaddr + n - 1;
    let off = vaddr % 4096;
    let k = 4096 - off;
    assert(last / 4096 == vaddr / 4096 + 1);
    lemma_guest(a, table, vaddr);
    lemma_guest(a, table, last);
    lemma_has_memory(a, space, table, vaddr);
    lemma_has_memory(a, space, table, last);
    let lo = resolve(a, table, page_of(vaddr))->0;
    let hi = resolve(a, table, page_of(vaddr) + 1)->0;
    let p = lo.backing as int;
    let q = hi.backing as int;
    let h = lo.ptr.page.index as int;
    let g = hi.ptr.page.index as int;
    assert(a.page_ok(p));
    assert(a.page_ok(q));
    assert(b.host =~= a.write(g, 0, data.skip(k)).write(h, off, data.take(k)).host);
    assert forall|c: int| #[trigger] place_at(b, table, c) == place_at(a, table, c) by {
        if let Some(x) = page_at(a, table, c) {
            assert(b.pages[x as int].allocated_page == a.pages[x as int].allocated_page);
        }
    }
    assert forall|i: int| 0 <= i < k implies place_at(a, table, #[trigger] (vaddr + i)) == Some(
        (h, off + i),
    ) && page_at(a, table, vaddr + i) == Some(p as usize) && noted_at(table, vaddr + i) == noted_at(
        table,
        vaddr,
    ) by {
        assert((vaddr + i) / 4096 == vaddr / 4096);
    }
    assert forall|i: int| k <= i < n implies place_at(a, table, #[trigger] (vaddr + i)) == Some(
        (g, i - k),
    ) && page_at(a, table, vaddr + i) == Some(q as usize) && noted_at(table, vaddr + i) == noted_at(
        table,
        last,
    ) by {
        assert((vaddr + i) / 4096 == last / 4096);
        assert((vaddr + i) % 4096 == i - k);
    }
    assert forall|i: int| 0 <= i < n implies seen_at(b, table, vaddr + i) == Some(
        #[trigger] data[i],
    ) by {
        assert(place_at(b, table, vaddr + i) == place_at(a, table, vaddr + i));
        if i < k {
            assert(place_at(a, table, vaddr + i) == Some((h, off + i)));
            assert(b.host[h].bytes[off + i] == data.take(k)[i]);
        } else {
            assert(place_at(a, table, vaddr + i) == Some((g, i - k)));
            assert(b.host[g].bytes[i - k] == data.skip(k)[i - k]);
        }
    }
    assert forall|f: int, o: int|
        #![trigger b.host[f].bytes[o]]
        0 <= f < a.host.len() && 0 <= o < a.host[f].bytes.len() && (forall|i: int|
            0 <= i < n ==> #[trigger] place_at(a, table, vaddr + i) != Some((f, o))) implies b.host[f].bytes[o]
        == a.host[f].bytes[o] by {
        if f == h && off <= o {
            assert(place_at(a, table, vaddr + (o - off)) == Some((h, off + (o - off))));
        }
        if f == g && o < n - k {
            assert(place_at(a, table, vaddr + (o + k)) == Some((g, o + k - k)));
        }
    }
    assert forall|x: int|
        #![trigger b.pages[x]]
        0 <= x < a.pages.len() implies {
        let noted = exists|i: int|
            0 <= i < data.len() && noted_at(table, vaddr + i) && #[trigger] page_at(
                a,
                table,
                vaddr + i,
            ) == Some(x as usize);
        let before = a.pages[x].dirty_page_flags;
        let after = b.pages[x].dirty_page_flags;
        &&& noted ==> after % 2 == 1 && after / 2 == before / 2
        &&& !noted ==> after == before
    } by {
        assert(a.page_ok(x));
        assert(page_at(a, table, vaddr + 0) == Some(p as usize));
        assert(page_at(a, table, vaddr + (n - 1)) == Some(q as usize));
        assert(vaddr + (n - 1) == last);
    }
}

pub(crate) proof fn lemma_stored(
    a: StoreView,
    space: nat,
    table: Map<u64, PageEntry>,
    vaddr: u64,
    data: Seq<u8>,
)
    requires
        a.wf(),
        table_wf(a, space, table),
        0 < data.len() <= 8,
        faults_at(a, table, vaddr as int, data.len() as int, true) is None,
    ensures
        stored(a, store_scalar(a, table, vaddr as int, data), table, vaddr as int, data),
{
    if crosses(vaddr as int, data.len() as int) {
        lemma_stored_across(a, space, table, vaddr as int, data);
    } else {
        lemma_stored_inside(a, space, table, vaddr as int, data);
    }
}

/// A byte store goes through exactly where memory is and may be written, and
/// leaves the byte behind; where it does not, nothing changes.
pub proof fn law_store_byte<T: ICache, C: LookupCache>(
    mmu: &IoMMU,
    fabric: &mut CpuFabric<T>,
    cache: &mut C,
    vaddr: u64,
    value: u8,
    r: Result<(), MemoryFault>,
)
    requires
        mmu.wf(*old(fabric)),
        call_ensures(IoMMU::store_byte::<T, C>, (mmu, fabric, cache, vaddr, value), r),
    ensures
        match faults_at(old(fabric).store@, mmu.table@, vaddr as int, 1, true) {
            Some(at) => (r matches Err(fault) && fault.reason is GeneralProtection && fault.vaddr
                == at) && final(fabric).store@ == old(fabric).store@,
            None => r is Ok && stored(
                old(fabric).store@,
                final(fabric).store@,
                mmu.table@,
                vaddr as int,
                seq![value],
            ),
        },
{
    let a = old(fabric).store@;
    lemma_faults(a, mmu.table@, vaddr, 1, true);
    if faults_at(a, mmu.table@, vaddr as int, 1, true) is None {
        lemma_stored(a, mmu.table.space@, mmu.table@, vaddr, seq![value]);
    }
}

/// A scalar store goes through exactly where memory is and may be written, and
/// leaves its little-endian bytes behind; where it does not, nothing changes.
pub proof fn law_store_scalar<T: ICache, C: LookupCache>(
    mmu: &IoMMU,
    fabric: &mut CpuFabric<T>,
    cache: &mut C,
    vaddr: u64,
    value: u64,
    n: int,
    r: Result<(), MemoryFault>,
)
    requires
        mmu.wf(*old(fabric)),
        ({
            ||| n == 2 && value <= 0xffff && call_ensures(
                IoMMU::store16_le::<T, C>,
                (mmu, fabric, cache, vaddr, value as u16),
                r,
            )
            ||| n == 4 && value <= 0xffff_ffff && call_ensures(
                IoMMU::store32_le::<T, C>,
                (mmu, fabric, cache, vaddr, value as u32),
                r,
            )
            ||| n == 8 && call_ensures(
                IoMMU::store64_le::<T, C>,
                (mmu, fabric, cache, vaddr, value),
                r,
            )
        }),
    ensures
        match faults_at(old(fabric).store@, mmu.table@, vaddr as int, n, true) {
            Some(at) => (r matches Err(fault) && fault.reason is GeneralProtection && fault.vaddr
                == at) && final(fabric).store@ == old(fabric).store@,
            None => r is Ok && exists|data: Seq<u8>|
                data.len() == n && #[trigger] stored(
                    old(fabric).store@,
                    final(fabric).store@,
                    mmu.table@,
                    vaddr as int,
                    data,
                ),
        },
        faults_at(old(fabric).store@, mmu.table@, vaddr as int, n, true) is None ==> seen_number(
            final(fabric).store@,
            mmu.table@,
            vaddr as int,
            n,
        ) == value,
{
    let a = old(fabric).store@;
    let b = final(fabric).store@;
    let table = mmu.table@;
    let data = to_le(value as nat, n as nat);
    lemma_faults(a, table, vaddr, n, true);
    lemma_pow256_values();
    lemma_le_value_of_to_le(value as nat, n as nat);
    if faults_at(a, table, vaddr as int, n, true) is None {
        lemma_stored(a, mmu.table.space@, table, vaddr, data);
        assert(stored(a, b, table, vaddr as int, data));
        if n == 2 {
            lemma_le2(data);
        } else if n == 4 {
            lemma_le4(data);
        } else {
            lemma_le8(data);
        }
        assert forall|i: int| 0 <= i < n implies seen_at(b, table, vaddr + i) == Some(
            #[trigger] data[i],
        ) by {}
    }
}

/// Memory that is lent becomes a new page of host memory with these bytes, which
/// is never given back. Everything else stays.
pub proof fn law_lend(store: &mut PageStore, bytes: Vec<u8>, r: PagePointer)
    requires
        bytes@.len() == 4096,
        call_ensures(PageStore::lend, (store, bytes), r),
    ensures
        r.index == old(store)@.host.len(),
        final(store)@.host.len() == old(store)@.host.len() + 1,
        final(store)@.host[r.index as int].bytes == bytes@,
        final(store)@.host[r.index as int].lent,
        forall|h: int|
            0 <= h < old(store)@.host.len() ==> #[trigger] final(store)@.host[h] == old(
                store,
            )@.host[h],
        final(store)@.pages == old(store)@.pages,
        final(store)@.slots == old(store)@.slots,
{
}

/// Memory of the embedder that is mapped at `base` is what the guest sees there:
/// the byte at `base + k` is byte `k` of the host pages from `ptr` on.
pub proof fn law_lent_byte<T: ICache, C: LookupCache>(
    mmu: &mut IoMMU,
    fabric: &mut CpuFabric<T>,
    base: u64,
    size: u64,
    addr: u64,
    ptr: PagePointer,
    readonly: bool,
    shared: bool,
    prot: MemProt,
    cache: &mut C,
    k: u64,
    r: Result<u8, MemoryFault>,
)
    requires
        !(readonly && shared),
        k < size,
        prot.read,
        call_ensures(
            IoMMU::map_extern::<T>,
            (mmu, fabric, base, size, addr, ptr, readonly, shared, prot),
            Ok(()),
        ),
        call_ensures(
            IoMMU::load_byte::<T, C>,
            (&*final(mmu), &*final(fabric), cache, (base + k) as u64),
            r,
        ),
    ensures
        r == Ok::<u8, MemoryFault>(
            final(fabric).store@.host[ptr.index + k / 4096].bytes[k as int % 4096],
        ),
{
    law_map_extern(mmu, fabric, base, size, addr, ptr, readonly, shared, prot, Ok(()));
    let a = (base + k) as u64;
    assert(a == base + k);
    let n = a / 4096;
    assert(base <= n * 4096 < base + size);
    assert(final(mmu).table@.contains_key(n));
    assert(final(mmu).table@[n].protections == prot);
    assert(n - base / 4096 == k / 4096);
    assert(a % 4096 == k % 4096);
    law_load_byte(&*final(mmu), &*final(fabric), cache, a, r);
}

} // verus!
