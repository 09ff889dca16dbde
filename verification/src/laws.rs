//! What holds of guest memory as a whole.
use vstd::prelude::*;
use crate::access::{
    accessible, byte_at, bytes_at, can_access, lemma_resolved, lemma_same_pages, load_outcome,
    pages_touched, run_end, run_start, same_pages, store_outcome, store_run, store_runs,
};
use crate::cpu_fabric::CpuFabric;
use crate::fault::MemoryFault;
use crate::icache::ICache;
use crate::io_mmu::{unmapped, with_protection, IoMMU};
use crate::lookup_cache::{law_stale_entries_ignored, LookupCache, Tlb, TLB_SIZE};
use crate::memops::{le_value, lemma_le_value_of_to_le, pow256, to_le, window};
use crate::memory::{offset_of, page_of, MemProt, PagePointer};
use crate::page_store::{splice, zero_bytes, HostPageView, StoreView};
use crate::page_table::{
    as_page, contents, copied, entry_ok, forked, frame, is_cow, lemma_entry_stable, mapped_pages,
    one, page_frame, resolve, table_wf, two, unmap_log, unmap_store, MapRegion, MemMapFlags,
    PageEntry, PageSource, PageTableAccess,
};
use crate::scalar::{crosses, scalar_fault, store_scalar};

verus! {

/// The host page behind page `n`.
pub open spec fn host_of(st: StoreView, table: Map<u64, PageEntry>, n: int) -> int {
    resolve(st, table, n)->0.ptr.page.index as int
}

/// Byte `o` of page `n` lies in `vaddr..(vaddr + len)`.
pub open spec fn covered(vaddr: int, len: int, n: int, o: int) -> bool {
    run_start(vaddr, n) <= o < run_end(vaddr, len, n)
}

/// No two addresses of `vaddr..(vaddr + len)` show the same host byte.
pub open spec fn unaliased(
    st: StoreView,
    table: Map<u64, PageEntry>,
    vaddr: int,
    len: int,
) -> bool {
    forall|m: int, n: int, o: int|
        #![trigger covered(vaddr, len, m, o), covered(vaddr, len, n, o)]
        page_of(vaddr) <= m < n <= page_of(vaddr + len - 1) && covered(vaddr, len, m, o) && covered(
            vaddr,
            len,
            n,
            o,
        ) ==> host_of(st, table, m) != host_of(st, table, n)
}

/// What writing the last of the first `k` pages of a store does.
pub(crate) proof fn lemma_last_run(
    a: StoreView,
    space: nat,
    table: Map<u64, PageEntry>,
    vaddr: int,
    data: Seq<u8>,
    required: Option<MemProt>,
    k: nat,
)
    requires
        a.wf(),
        table_wf(a, space, table),
        0 <= vaddr,
        data.len() > 0,
        can_access(a, table, vaddr, data.len() as int, required, true),
        page_of(vaddr) + k <= page_of(vaddr + data.len() - 1) + 1,
    ensures
        ({
            let b = store_runs(a, table, vaddr, data, k);
            &&& same_pages(a, b)
            &&& forall|h: int| 0 <= h < a.host.len() ==> (#[trigger] b.host[h]).bytes.len()
                == a.host[h].bytes.len()
        }),
        k > 0 ==> ({
            let len = data.len() as int;
            let b = store_runs(a, table, vaddr, data, k);
            let c = store_runs(a, table, vaddr, data, (k - 1) as nat);
            let last = page_of(vaddr) + k - 1;
            let h = host_of(a, table, last);
            &&& 0 <= h < a.host.len()
            &&& a.host[h].bytes.len() == 4096
            &&& forall|g: int| 0 <= g < a.host.len() && g != h ==> #[trigger] b.host[g] == c.host[g]
            &&& forall|o: int|
                0 <= o < 4096 ==> #[trigger] b.host[h].bytes[o] == (if covered(vaddr, len, last, o) {
                    data[last * 4096 + o - vaddr]
                } else {
                    c.host[h].bytes[o]
                })
        }),
    decreases k,
{
    let len = data.len() as int;
    let b = store_runs(a, table, vaddr, data, k);
    if k > 0 {
        let m = (k - 1) as nat;
        let c = store_runs(a, table, vaddr, data, m);
        let last = page_of(vaddr) + m;
        lemma_last_run(a, space, table, vaddr, data, required, m);
        lemma_same_pages(a, c, space, table);
        assert(accessible(a, table, last, required, true));
        assert(resolve(c, table, last) == resolve(a, table, last));
        lemma_resolved(a, space, table, last);
        let h = host_of(a, table, last);
        let start = run_start(vaddr, last);
        let end = run_end(vaddr, len, last);
        let part = window(data, last * 4096 + start - vaddr, end - start);
        assert(b == store_run(c, table, vaddr, data, last));
        assert(b.host == c.host.update(
            h,
            HostPageView { bytes: splice(c.host[h].bytes, start, part), ..c.host[h] },
        ));
    }
}

/// A host byte that no address of a store shows stays.
pub(crate) proof fn lemma_store_keeps(
    a: StoreView,
    space: nat,
    table: Map<u64, PageEntry>,
    vaddr: int,
    data: Seq<u8>,
    required: Option<MemProt>,
    k: nat,
    h: int,
    o: int,
)
    requires
        a.wf(),
        table_wf(a, space, table),
        0 <= vaddr,
        data.len() > 0,
        can_access(a, table, vaddr, data.len() as int, required, true),
        page_of(vaddr) + k <= page_of(vaddr + data.len() - 1) + 1,
        0 <= h < a.host.len(),
        0 <= o < 4096,
        forall|n: int|
            page_of(vaddr) <= n < page_of(vaddr) + k ==> #[trigger] host_of(a, table, n) != h
                || !covered(vaddr, data.len() as int, n, o),
    ensures
        store_runs(a, table, vaddr, data, k).host[h].bytes[o] == a.host[h].bytes[o],
    decreases k,
{
    lemma_last_run(a, space, table, vaddr, data, required, k);
    if k > 0 {
        lemma_store_keeps(a, space, table, vaddr, data, required, (k - 1) as nat, h, o);
        let c = store_runs(a, table, vaddr, data, (k - 1) as nat);
        let b = store_runs(a, table, vaddr, data, k);
        let g = host_of(a, table, page_of(vaddr) + k - 1);
        if g == h {
            assert(b.host[g].bytes[o] == c.host[g].bytes[o]);
        } else {
            assert(b.host[h] == c.host[h]);
        }
    }
}

/// An address of a store shows the stored byte, once its page was written.
pub(crate) proof fn lemma_store_shows(
    a: StoreView,
    space: nat,
    table: Map<u64, PageEntry>,
    vaddr: int,
    data: Seq<u8>,
    required: Option<MemProt>,
    k: nat,
    n: int,
    o: int,
)
    requires
        a.wf(),
        table_wf(a, space, table),
        0 <= vaddr,
        data.len() > 0,
        can_access(a, table, vaddr, data.len() as int, required, true),
        unaliased(a, table, vaddr, data.len() as int),
        page_of(vaddr) + k <= page_of(vaddr + data.len() - 1) + 1,
        page_of(vaddr) <= n < page_of(vaddr) + k,
        0 <= o < 4096,
        covered(vaddr, data.len() as int, n, o),
    ensures
        store_runs(a, table, vaddr, data, k).host[host_of(a, table, n)].bytes[o] == data[n * 4096 + o
            - vaddr],
    decreases k,
{
    let len = data.len() as int;
    let last = page_of(vaddr) + k - 1;
    let c = store_runs(a, table, vaddr, data, (k - 1) as nat);
    let b = store_runs(a, table, vaddr, data, k);
    let h = host_of(a, table, n);
    let g = host_of(a, table, last);
    lemma_last_run(a, space, table, vaddr, data, required, k);
    if n < last {
        assert(accessible(a, table, n, required, true));
        lemma_resolved(a, space, table, n);
        lemma_store_shows(a, space, table, vaddr, data, required, (k - 1) as nat, n, o);
        if g == h {
            assert(!covered(vaddr, len, last, o));
            assert(b.host[g].bytes[o] == c.host[g].bytes[o]);
        } else {
            assert(b.host[h] == c.host[h]);
        }
    } else {
        assert(b.host[g].bytes[o] == data[n * 4096 + o - vaddr]);
    }
}

/// A load gives back what a store wrote, also across pages: after a store
/// that went through, a load of its range succeeds where it may, and gives
/// the stored data. No two addresses of the range may show the same host
/// byte.
pub proof fn law_load_after_store(
    a: StoreView,
    b: StoreView,
    space: nat,
    table: Map<u64, PageEntry>,
    vaddr: int,
    data: Seq<u8>,
    to_write: Option<MemProt>,
    to_read: Option<MemProt>,
    before: Seq<u8>,
    after: Seq<u8>,
    r: Result<(), MemoryFault>,
)
    requires
        a.wf(),
        table_wf(a, space, table),
        0 <= vaddr,
        store_outcome(a, b, table, vaddr, data, to_write, Ok(())),
        unaliased(a, table, vaddr, data.len() as int),
        can_access(a, table, vaddr, data.len() as int, to_read, false),
        before.len() == data.len(),
        load_outcome(b, table, vaddr, before, after, to_read, r),
    ensures
        bytes_at(b, table, vaddr, data.len()) == data,
        r is Ok,
        after == data,
{
    let len = data.len() as int;
    let k = pages_touched(vaddr, len);
    if len > 0 {
        lemma_last_run(a, space, table, vaddr, data, to_write, k);
        lemma_same_pages(a, b, space, table);
        assert forall|i: int| 0 <= i < len implies #[trigger] byte_at(b, table, vaddr + i)
            == data[i] by {
            let n = page_of(vaddr + i);
            let o = offset_of(vaddr + i);
            assert(page_of(vaddr) <= n <= page_of(vaddr + len - 1));
            assert(resolve(b, table, n) == resolve(a, table, n));
            lemma_store_shows(a, space, table, vaddr, data, to_write, k, n, o);
        }
        assert forall|n: int|
            page_of(vaddr) <= n <= page_of(vaddr + len - 1) implies #[trigger] accessible(
            b,
            table,
            n,
            to_read,
            false,
        ) by {
            assert(accessible(a, table, n, to_read, false));
            assert(resolve(b, table, n) == resolve(a, table, n));
        }
    }
    assert(bytes_at(b, table, vaddr, data.len()) =~= data);
}

/// A store changes no byte outside its range, of its own or of any other
/// address space, unless that byte is shown through the range too.
pub proof fn law_store_elsewhere(
    a: StoreView,
    b: StoreView,
    space: nat,
    table: Map<u64, PageEntry>,
    vaddr: int,
    data: Seq<u8>,
    required: Option<MemProt>,
    other_space: nat,
    other: Map<u64, PageEntry>,
    addr: int,
)
    requires
        a.wf(),
        table_wf(a, space, table),
        table_wf(a, other_space, other),
        0 <= vaddr,
        store_outcome(a, b, table, vaddr, data, required, Ok(())),
        resolve(a, other, page_of(addr)) is Some,
        forall|n: int|
            data.len() > 0 && page_of(vaddr) <= n <= page_of(vaddr + data.len() - 1)
                ==> #[trigger] host_of(a, table, n) != host_of(a, other, page_of(addr)) || !covered(
                vaddr,
                data.len() as int,
                n,
                offset_of(addr),
            ),
    ensures
        resolve(b, other, page_of(addr)) == resolve(a, other, page_of(addr)),
        byte_at(b, other, addr) == byte_at(a, other, addr),
{
    let len = data.len() as int;
    let k = pages_touched(vaddr, len);
    if len > 0 {
        lemma_last_run(a, space, table, vaddr, data, required, k);
        lemma_same_pages(a, b, other_space, other);
        lemma_resolved(a, other_space, other, page_of(addr));
        let g = host_of(a, other, page_of(addr));
        lemma_store_keeps(a, space, table, vaddr, data, required, k, g, offset_of(addr));
    }
}

/// A scalar load gives back what a scalar store of the same width wrote,
/// whether or not the scalar crosses a page.
pub proof fn law_scalar_load_after_store(
    a: StoreView,
    space: nat,
    table: Map<u64, PageEntry>,
    vaddr: u64,
    value: nat,
    n: nat,
)
    requires
        a.wf(),
        table_wf(a, space, table),
        0 < n <= 8,
        value < pow256(n),
        scalar_fault(a, table, vaddr, n as int, MemProt::spec_write()) is None,
    ensures
        ({
            let b = store_scalar(a, table, vaddr as int, to_le(value, n));
            le_value(bytes_at(b, table, vaddr as int, n)) == value
        }),
{
    let data = to_le(value, n);
    let b = store_scalar(a, table, vaddr as int, data);
    let page = page_of(vaddr as int);
    let offset = offset_of(vaddr as int);
    lemma_resolved(a, space, table, page);
    lemma_resolved(a, space, table, page + 1);
    lemma_le_value_of_to_le(value, n);
    let lo = resolve(a, table, page)->0;
    let lo_h = lo.ptr.page.index as int;
    assert(same_pages(a, b));
    lemma_same_pages(a, b, space, table);
    assert(resolve(b, table, page) == resolve(a, table, page));
    assert(resolve(b, table, page + 1) == resolve(a, table, page + 1));
    if !crosses(vaddr as int, n as int) {
        assert(b.host[lo_h].bytes == splice(a.host[lo_h].bytes, offset, data));
    } else {
        let hi_h = resolve(a, table, page + 1)->0.ptr.page.index as int;
        let in_lo = 4096 - offset;
        let mid = splice(a.host[hi_h].bytes, 0, data.skip(in_lo));
        if hi_h == lo_h {
            assert(b.host[lo_h].bytes == splice(mid, offset, data.take(in_lo)));
        } else {
            assert(b.host[hi_h].bytes == mid);
            assert(b.host[lo_h].bytes == splice(a.host[lo_h].bytes, offset, data.take(in_lo)));
        }
    }
    assert(bytes_at(b, table, vaddr as int, n) =~= data);
}

/// A copy-on-write page is never written in place: neither a bulk store nor
/// a scalar store to it gets through, until the page has been copied.
pub proof fn law_cow_refuses_stores(
    st: StoreView,
    space: nat,
    table: Map<u64, PageEntry>,
    vaddr: u64,
    n: int,
    required: Option<MemProt>,
)
    requires
        st.wf(),
        table_wf(st, space, table),
        n > 0,
        resolve(st, table, page_of(vaddr as int)) matches Some(page) && page.ptr.flags.cow,
    ensures
        !can_access(st, table, vaddr as int, n, required, true),
        scalar_fault(st, table, vaddr, n, MemProt::spec_write()) is Some,
{
    lemma_resolved(st, space, table, page_of(vaddr as int));
    assert(!accessible(st, table, page_of(vaddr as int), required, true));
}

/// At the fork both address spaces resolve every page alike and see the
/// contents that the forked address space saw.
pub proof fn law_fork_same_view(
    a: StoreView,
    b: StoreView,
    space: nat,
    table: Map<u64, PageEntry>,
    parent: Map<u64, PageEntry>,
    child_space: nat,
    child: Map<u64, PageEntry>,
    n: int,
)
    requires
        a.wf(),
        b.wf(),
        table_wf(a, space, table),
        table_wf(b, space, parent),
        table_wf(b, child_space, child),
        frame(a, b, two(space, child_space)),
        parent.dom() == table.dom(),
        child.dom() == table.dom(),
        forall|m: u64| #[trigger]
            table.contains_key(m) ==> forked(
                a,
                b,
                child_space,
                m,
                table[m],
                parent[m],
                child[m],
            ),
    ensures
        resolve(b, parent, n) == resolve(b, child, n),
        resolve(b, parent, n) is Some == resolve(a, table, n) is Some,
        contents(b, parent, n) == contents(a, table, n),
        contents(b, child, n) == contents(a, table, n),
{
    if 0 <= n <= u64::MAX && table.contains_key(n as u64) {
        let m = n as u64;
        assert(parent.contains_key(m) && child.contains_key(m));
        assert(forked(a, b, child_space, m, table[m], parent[m], child[m]));
        assert(entry_ok(a, space, m, table[m]));
        assert(entry_ok(b, space, m, parent[m]));
        let ours = two(space, child_space);
        match table[m].source {
            PageSource::Private { page, .. } => {
                assert(page_frame(a, b, ours, page as int));
                lemma_resolved(b, space, parent, n);
            },
            PageSource::Shared(_) => {
                lemma_entry_stable(a, b, ours, space, m, table[m]);
            },
            PageSource::Object { slot, shared } => {
                assert(a.slot_ok(slot as int));
                if shared || a.slots[slot as int].page is None {
                    lemma_entry_stable(a, b, ours, space, m, table[m]);
                } else {
                    let page = a.slots[slot as int].page->0;
                    assert(page_frame(a, b, ours, page as int));
                    lemma_resolved(b, space, parent, n);
                }
            },
        }
    } else if 0 <= n <= u64::MAX {
        assert(!parent.dom().contains(n as u64));
        assert(!child.dom().contains(n as u64));
        assert(!parent.contains_key(n as u64));
        assert(!child.contains_key(n as u64));
    }
}

/// After a fork no private page can be written in place on either side.
pub proof fn law_fork_makes_cow(
    a: StoreView,
    b: StoreView,
    child_space: nat,
    n: u64,
    e: PageEntry,
    parent: PageEntry,
    child: PageEntry,
)
    requires
        forked(a, b, child_space, n, e, parent, child),
        e.source is Private,
    ensures
        is_cow(parent),
        is_cow(child),
        as_page(b, parent) matches Some(page) && page.ptr.flags.cow && !page.ptr.flags.write,
        as_page(b, child) == as_page(b, parent),
{
}

/// New anonymous memory reads as zeros, and every page that was mapped
/// before keeps its contents.
pub proof fn law_map_reads_zero(
    a: StoreView,
    b: StoreView,
    space: nat,
    table: Map<u64, PageEntry>,
    mapped: Map<u64, PageEntry>,
    access: PageTableAccess,
    prot: MemProt,
    flags: MemMapFlags,
    n: int,
)
    requires
        a.wf(),
        b.wf(),
        access.wf(),
        table_wf(a, space, table),
        table_wf(b, space, mapped),
        mapped_pages(a, b, space, table, mapped, access, prot, MapRegion::Anon(flags)),
    ensures
        access.contains(n) ==> contents(b, mapped, n) == Some(zero_bytes()),
        !access.contains(n) ==> resolve(b, mapped, n) == resolve(a, table, n) && contents(
            b,
            mapped,
            n,
        ) == contents(a, table, n),
{
    if access.contains(n) {
        assert(mapped.contains_key(n as u64));
        assert(entry_ok(b, space, n as u64, mapped[n as u64]));
    } else if 0 <= n <= u64::MAX {
        let m = n as u64;
        assert(mapped.contains_key(m) == table.contains_key(m));
        if table.contains_key(m) {
            assert(entry_ok(a, space, m, table[m]));
            assert(entry_ok(b, space, m, mapped[m]));
            lemma_entry_stable(a, b, one(space), space, m, table[m]);
        }
    }
}

/// After unmapping, no page of the range resolves and every other page keeps
/// its contents.
pub proof fn law_unmap(
    a: StoreView,
    b: StoreView,
    space: nat,
    table: Map<u64, PageEntry>,
    access: PageTableAccess,
    n: int,
)
    requires
        a.wf(),
        b.wf(),
        table_wf(a, space, table),
        table_wf(
            b,
            space,
            table.remove_keys(Set::new(|m: u64| access.contains(m as int))),
        ),
        frame(a, b, one(space)),
    ensures
        ({
            let rest = table.remove_keys(Set::new(|m: u64| access.contains(m as int)));
            &&& access.contains(n) ==> resolve(b, rest, n) is None
            &&& !access.contains(n) ==> resolve(b, rest, n) == resolve(a, table, n)
            &&& !access.contains(n) ==> contents(b, rest, n) == contents(a, table, n)
        }),
{
    let rest = table.remove_keys(Set::new(|m: u64| access.contains(m as int)));
    if !access.contains(n) && 0 <= n <= u64::MAX && table.contains_key(n as u64) {
        let m = n as u64;
        assert(rest.contains_key(m));
        assert(entry_ok(a, space, m, table[m]));
        assert(entry_ok(b, space, m, rest[m]));
        lemma_entry_stable(a, b, one(space), space, m, table[m]);
    }
}

/// Dropping the entries of pages that have none does nothing.
proof fn lemma_nothing_to_unmap(
    st: StoreView,
    space: nat,
    table: Map<u64, PageEntry>,
    start: u64,
    k: nat,
)
    requires
        forall|n: u64| start <= n < start + k ==> !#[trigger] table.contains_key(n),
        start + k <= u64::MAX,
    ensures
        unmap_store(st, space, table, start, k) == st,
        unmap_log(st, space, table, start, k) == Seq::<PagePointer>::empty(),
    decreases k,
{
    if k > 0 {
        lemma_nothing_to_unmap(st, space, table, start, (k - 1) as nat);
        assert(!table.contains_key((start + k - 1) as u64));
        assert(unmap_log(st, space, table, start, k) =~= Seq::<PagePointer>::empty());
    }
}

/// Unmapping is idempotent: unmapping a range once more changes nothing, not
/// even the identity of the address space.
pub proof fn law_unmap_twice<T: ICache>(
    a: IoMMU,
    fa: CpuFabric<T>,
    b: IoMMU,
    fb: CpuFabric<T>,
    c: IoMMU,
    fc: CpuFabric<T>,
    access: PageTableAccess,
)
    requires
        access.wf(),
        unmapped(a, fa, b, fb, access),
        unmapped(b, fb, c, fc, access),
    ensures
        c.table@ == b.table@,
        c.identifier == b.identifier,
        fc.store@ == fb.store@,
        fc.instruction_cache.invalidated() == fb.instruction_cache.invalidated(),
        fc.next_token == fb.next_token,
{
    assert forall|n: u64| access.contains(n as int) implies !#[trigger] b.table@.contains_key(
        n,
    ) by {}
    assert(c.table@ =~= b.table@);
    lemma_nothing_to_unmap(
        fb.store@,
        b.table.space@,
        b.table@,
        access.start_page,
        access.page_count as nat,
    );
    let log = fb.instruction_cache.invalidated();
    assert(log + Seq::<PagePointer>::empty() =~= log);
}

/// Unmapping what was just mapped brings back the table from before, and
/// every page of it resolves to what it resolved to.
pub proof fn law_unmap_undoes_map(
    a: StoreView,
    b: StoreView,
    c: StoreView,
    space: nat,
    table: Map<u64, PageEntry>,
    mapped: Map<u64, PageEntry>,
    access: PageTableAccess,
    prot: MemProt,
    region: MapRegion,
    n: int,
)
    requires
        a.wf(),
        b.wf(),
        c.wf(),
        table_wf(a, space, table),
        table_wf(b, space, mapped),
        forall|m: int| access.contains(m) ==> !#[trigger] table.contains_key(m as u64),
        mapped_pages(a, b, space, table, mapped, access, prot, region),
        frame(b, c, one(space)),
        table_wf(
            c,
            space,
            mapped.remove_keys(Set::new(|m: u64| access.contains(m as int))),
        ),
    ensures
        mapped.remove_keys(Set::new(|m: u64| access.contains(m as int))) == table,
        resolve(c, table, n) == resolve(a, table, n),
        contents(c, table, n) == contents(a, table, n),
{
    let rest = mapped.remove_keys(Set::new(|m: u64| access.contains(m as int)));
    assert forall|m: u64| #[trigger] rest.contains_key(m) == table.contains_key(m) by {
        if access.contains(m as int) {
            assert(!table.contains_key((m as int) as u64));
        } else {
            assert(mapped.contains_key(m) == table.contains_key(m));
        }
    }
    assert forall|m: u64| #[trigger] rest.contains_key(m) implies rest[m] == table[m] by {
        assert(mapped.contains_key(m));
    }
    assert(rest =~= table);
    crate::page_table::lemma_frame_trans(a, b, c, one(space));
    if 0 <= n <= u64::MAX && table.contains_key(n as u64) {
        let m = n as u64;
        assert(entry_ok(a, space, m, table[m]));
        assert(entry_ok(c, space, m, table[m]));
        lemma_entry_stable(a, c, one(space), space, m, table[m]);
    }
}

/// Changing protections changes no contents and takes effect at once: pages
/// of the range grant what they were given, or, where they are
/// copy-on-write, all of it but `WRITE`.
pub proof fn law_protect(
    st: StoreView,
    table: Map<u64, PageEntry>,
    access: PageTableAccess,
    protections: MemProt,
    n: int,
)
    ensures
        contents(st, with_protection(table, access, protections), n) == contents(st, table, n),
        access.contains(n) ==> (resolve(st, with_protection(table, access, protections), n) matches Some(
            page,
        ) ==> {
            let flags = page.ptr.flags;
            &&& flags.read == protections.read
            &&& flags.execute == protections.execute
            &&& flags.write == (protections.write && !flags.cow)
        }),
{
    if 0 <= n <= u64::MAX && table.contains_key(n as u64) {
        let m = n as u64;
        assert(with_protection(table, access, protections).contains_key(m));
    }
}

/// Resolving copy-on-write pages changes no contents, and afterwards no page
/// is copy-on-write.
pub proof fn law_copy_keeps_contents(
    a: StoreView,
    b: StoreView,
    space: nat,
    table: Map<u64, PageEntry>,
    resolved: Map<u64, PageEntry>,
    n: int,
)
    requires
        a.wf(),
        b.wf(),
        table_wf(a, space, table),
        table_wf(b, space, resolved),
        frame(a, b, one(space)),
        resolved.dom() == table.dom(),
        forall|m: u64| #[trigger] table.contains_key(m) ==> copied(a, b, table[m], resolved[m]),
    ensures
        contents(b, resolved, n) == contents(a, table, n),
        resolve(b, resolved, n) matches Some(page) ==> !page.ptr.flags.cow,
{
    if 0 <= n <= u64::MAX && table.contains_key(n as u64) {
        let m = n as u64;
        assert(resolved.contains_key(m));
        assert(copied(a, b, table[m], resolved[m]));
        assert(entry_ok(a, space, m, table[m]));
        assert(entry_ok(b, space, m, resolved[m]));
        if !is_cow(table[m]) {
            lemma_entry_stable(a, b, one(space), space, m, table[m]);
        }
    } else if 0 <= n <= u64::MAX {
        assert(!resolved.dom().contains(n as u64));
        assert(!resolved.contains_key(n as u64));
    }
}

/// A translation cache survives every change of the page table: the new
/// identity token is newer than all that the cache remembers, so the cache
/// agrees with whatever the page table became.
pub proof fn law_tlb_survives_changes(tlb: Tlb, fresh_token: u64, changed: IoMMU, st: StoreView)
    requires
        tlb.entries@.len() == TLB_SIZE,
        tlb.bounded(fresh_token),
        changed.identifier.token == fresh_token,
    ensures
        tlb.consistent(changed, st),
{
    law_stale_entries_ignored(tlb, changed, st);
}

} // verus!
