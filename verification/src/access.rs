//! Loads from and stores to guest memory.
use vstd::prelude::*;
use crate::cpu_fabric::{same_devices, spaces_bounded, CpuFabric};
use crate::fault::{gp, MemoryFault};
use crate::icache::ICache;
use crate::io_mmu::IoMMU;
use crate::lookup_cache::LookupCache;
use crate::memops::{copy_nonoverlapping_vm_to_host, window};
use crate::memory::{offset_of, page_of, MemProt, Page, PageNumber, MAX_PAGE_NUMBER, PAGE_SIZE};
use crate::page_store::{Holder, StoreView};
use crate::page_table::{
    entry_ok, lemma_dirty_only, lookup, me, refers_page, resolve, table_wf, PageEntry, PageSource,
};

verus! {

/// One past the largest virtual address.
pub open spec fn address_limit() -> int {
    0x1_0000_0000_0000_0000
}

/// Whether `page` may be accessed with one of the permissions `required`,
/// and in place where `no_cow` asks for that.
pub open spec fn allows(page: Page, required: Option<MemProt>, no_cow: bool) -> bool {
    &&& no_cow ==> !page.ptr.flags.cow
    &&& required matches Some(prot) ==> page.ptr.flags.spec_contains_any(prot)
}

/// Whether page `n` is mapped and may be accessed.
pub open spec fn accessible(
    st: StoreView,
    table: Map<u64, PageEntry>,
    n: int,
    required: Option<MemProt>,
    no_cow: bool,
) -> bool {
    resolve(st, table, n) matches Some(page) && allows(page, required, no_cow)
}

/// Whether all pages of `vaddr..(vaddr + len)` may be accessed.
pub open spec fn can_access(
    st: StoreView,
    table: Map<u64, PageEntry>,
    vaddr: int,
    len: int,
    required: Option<MemProt>,
    no_cow: bool,
) -> bool {
    len == 0 || {
        &&& vaddr + len <= address_limit()
        &&& forall|n: int|
            page_of(vaddr) <= n <= page_of(vaddr + len - 1) ==> #[trigger] accessible(
                st,
                table,
                n,
                required,
                no_cow,
            )
    }
}

/// Page `n` is the last page of the range that may not be accessed.
pub open spec fn last_inaccessible(
    st: StoreView,
    table: Map<u64, PageEntry>,
    vaddr: int,
    len: int,
    required: Option<MemProt>,
    no_cow: bool,
    n: int,
) -> bool {
    &&& page_of(vaddr) <= n <= page_of(vaddr + len - 1)
    &&& !accessible(st, table, n, required, no_cow)
    &&& forall|m: int|
        n < m <= page_of(vaddr + len - 1) ==> #[trigger] accessible(st, table, m, required, no_cow)
}

/// The fault of an access that is not possible: past the end of the address
/// space, or at the base of the last page that may not be accessed.
pub open spec fn access_fault(
    st: StoreView,
    table: Map<u64, PageEntry>,
    vaddr: int,
    len: int,
    required: Option<MemProt>,
    no_cow: bool,
    fault: MemoryFault,
) -> bool {
    if vaddr + len > address_limit() {
        fault == gp(u64::MAX)
    } else {
        exists|n: int| #[trigger]
            last_inaccessible(st, table, vaddr, len, required, no_cow, n) && fault == gp(
                (n * 4096) as u64,
            )
    }
}

/// The guest byte at `addr`.
pub open spec fn byte_at(st: StoreView, table: Map<u64, PageEntry>, addr: int) -> u8 {
    st.host[resolve(st, table, page_of(addr))->0.ptr.page.index as int].bytes[offset_of(addr)]
}

/// The guest bytes of `vaddr..(vaddr + len)`.
pub open spec fn bytes_at(st: StoreView, table: Map<u64, PageEntry>, vaddr: int, len: nat) -> Seq<u8> {
    Seq::new(len, |i: int| byte_at(st, table, vaddr + i))
}

/// A resolved page has its memory; one that is not copy-on-write is not the
/// zero page.
pub proof fn lemma_resolved(st: StoreView, space: nat, table: Map<u64, PageEntry>, n: int)
    requires
        st.wf(),
        table_wf(st, space, table),
    ensures
        resolve(st, table, n) matches Some(page) ==> {
            let h = page.ptr.page.index as int;
            &&& page.backing < st.pages.len()
            &&& st.pages[page.backing as int].allocated_page == page.ptr.page
            &&& st.pages[page.backing as int].refs > 0
            &&& 0 <= h < st.host.len()
            &&& st.host[h].bytes.len() == 4096
            &&& !page.ptr.flags.cow ==> st.writable(h) && st.zero_page != Some(page.backing)
            &&& page.ptr.flags.cow ==> !page.ptr.flags.write
        },
{
    if resolve(st, table, n) is Some {
        let e = table[n as u64];
        let page = resolve(st, table, n)->0;
        let b = page.backing as int;
        assert(entry_ok(st, space, n as u64, e));
        if let PageSource::Object { slot, .. } = e.source {
            assert(st.slot_ok(slot as int));
        }
        assert(st.page_ok(b));
        assert(st.pages[b].refs > 0) by {
            let holders = st.pages[b].holders@;
            let h = match e.source {
                PageSource::Object { slot, .. } => Holder::Slot { slot },
                _ => Holder::Table { space, page: n as u64 },
            };
            assert(holders.contains(h));
            assert(holders.remove(h).len() + 1 == holders.len());
        }
        if !page.ptr.flags.cow {
            assert(!st.pages[b].holders@.contains(Holder::ZeroPage));
            if let Some(z) = st.zero_page {
                assert(st.page_ok(z as int));
                assert(st.pages[z as int].should_dealloc);
                if st.pages[b].allocated_page == st.pages[z as int].allocated_page {
                    assert(st.pages[b].should_dealloc);
                    assert(false);
                }
            }
        }
    }
}

/// The pages of a checked access, with where it starts in the first one and
/// where it ends in the last one.
#[derive(Clone, Copy, PartialEq, Eq, Structural, Debug)]
pub struct MemAccess {
    pub start_page: u64,
    pub start_offset: usize,
    pub last_page: u64,
    pub last_page_end: usize,
}

impl MemAccess {
    /// The access is that of `vaddr..(vaddr + len)`.
    pub open spec fn covers(self, vaddr: int, len: int) -> bool {
        &&& len > 0
        &&& vaddr + len <= address_limit()
        &&& self.start_page == page_of(vaddr)
        &&& self.start_offset == offset_of(vaddr)
        &&& self.last_page == page_of(vaddr + len - 1)
        &&& self.last_page_end == offset_of(vaddr + len - 1) + 1
    }

    /// The part of the access that lies in page `n`: where it starts in the
    /// page, where it starts in the accessed bytes, and its length.
    fn page_run(&self, n: u64, vaddr: Ghost<int>, len: usize) -> (r: (usize, usize, usize))
        requires
            self.covers(vaddr@, len as int),
            0 <= vaddr@,
            self.start_page <= n <= self.last_page,
        ensures
            r.0 == run_start(vaddr@, n as int),
            r.1 == n * 4096 + r.0 - vaddr@,
            r.2 == run_end(vaddr@, len as int, n as int) - r.0,
            r.0 + r.2 <= PAGE_SIZE,
            r.2 > 0,
            r.1 + r.2 <= len,
    {
        let page_start: usize = if n == self.start_page {
            self.start_offset
        } else {
            0
        };
        let page_end: usize = if n == self.last_page {
            self.last_page_end
        } else {
            PAGE_SIZE
        };
        let full_pages_before: u64 = n - self.start_page;
        let before: u64 = full_pages_before * 4096 + page_start as u64 - self.start_offset as u64;
        (page_start, before as usize, page_end - page_start)
    }
}

/// Where the part of an access that lies in page `n` starts in the page.
pub open spec fn run_start(vaddr: int, n: int) -> int {
    if n == page_of(vaddr) {
        offset_of(vaddr)
    } else {
        0
    }
}

/// Where the part of an access that lies in page `n` ends in the page.
pub open spec fn run_end(vaddr: int, len: int, n: int) -> int {
    if n == page_of(vaddr + len - 1) {
        offset_of(vaddr + len - 1) + 1
    } else {
        4096
    }
}

impl IoMMU {
    /// Resolves `page` through the given cache.
    pub fn get_page<T: ICache, C: LookupCache>(
        &self,
        fabric: &CpuFabric<T>,
        cache: &mut C,
        page: PageNumber,
    ) -> (r: Result<Page, MemoryFault>)
        requires
            self.wf(*fabric),
            page.wf(),
            old(cache).consistent(*self, fabric.store@),
        ensures
            final(cache).consistent(*self, fabric.store@),
            r == lookup(fabric.store@, self.table@, page.number as int),
    {
        cache.get_page(self, &fabric.store, page)
    }

    /// Checks an access of `len` bytes at `vaddr`: every page of it has to
    /// be mapped, with one of the permissions `required`, and must not be
    /// copy-on-write where `no_cow` is set. All pages are checked before
    /// anything is accessed. An access of no bytes touches no page.
    fn mem_access<T: ICache, C: LookupCache>(
        &self,
        fabric: &CpuFabric<T>,
        cache: &mut C,
        vaddr: u64,
        len: usize,
        required: Option<MemProt>,
        no_cow: bool,
    ) -> (r: Result<Option<MemAccess>, MemoryFault>)
        requires
            self.wf(*fabric),
            old(cache).consistent(*self, fabric.store@),
        ensures
            final(cache).consistent(*self, fabric.store@),
            match r {
                Ok(None) => len == 0,
                Ok(Some(access)) => {
                    &&& access.covers(vaddr as int, len as int)
                    &&& can_access(
                        fabric.store@,
                        self.table@,
                        vaddr as int,
                        len as int,
                        required,
                        no_cow,
                    )
                },
                Err(fault) => {
                    &&& !can_access(
                        fabric.store@,
                        self.table@,
                        vaddr as int,
                        len as int,
                        required,
                        no_cow,
                    )
                    &&& access_fault(
                        fabric.store@,
                        self.table@,
                        vaddr as int,
                        len as int,
                        required,
                        no_cow,
                        fault,
                    )
                },
            },
    {
        let ghost st = fabric.store@;
        let count: u64 = len as u64;
        if count == 0 {
            return Ok(None);
        }
        let end: u64 = vaddr.wrapping_add(count);
        if end < vaddr && end != 0 {
            return Err(MemoryFault::general_protection(u64::MAX));
        }
        let last_addr_inclusive: u64 = end.wrapping_sub(1);
        assert(last_addr_inclusive == vaddr + len - 1);
        let (start_page, start_offset) = PageNumber::from_vaddr_with_offset(vaddr);
        let (last_page, end_offset) = PageNumber::from_vaddr_with_offset(last_addr_inclusive);
        // verified in reverse, so that a cache is hottest at the head of the
        // range when the access begins
        let mut above: u64 = last_page.number + 1;
        while above > start_page.number
            invariant
                len > 0,
                vaddr + len <= address_limit(),
                start_page.number == page_of(vaddr as int),
                last_page.number == page_of(vaddr + len - 1),
                last_page.number <= MAX_PAGE_NUMBER,
                start_page.number <= above <= last_page.number + 1,
                self.wf(*fabric),
                st == fabric.store@,
                cache.consistent(*self, st),
                forall|m: int|
                    above <= m <= last_page.number ==> #[trigger] accessible(
                        st,
                        self.table@,
                        m,
                        required,
                        no_cow,
                    ),
            decreases above,
        {
            let n = PageNumber { number: above - 1 };
            match cache.get_page(self, &fabric.store, n) {
                Ok(page) => {
                    let cow_ok: bool = !no_cow || !page.ptr.flags.cow;
                    let prot_ok: bool = match required {
                        Some(prot) => page.ptr.flags.contains_any(prot),
                        None => true,
                    };
                    if !cow_ok || !prot_ok {
                        assert(last_inaccessible(
                            st,
                            self.table@,
                            vaddr as int,
                            len as int,
                            required,
                            no_cow,
                            n.number as int,
                        ));
                        return Err(MemoryFault::general_protection(n.vaddr_base()));
                    }
                    assert(accessible(st, self.table@, n.number as int, required, no_cow));
                },
                Err(fault) => {
                    assert(last_inaccessible(
                        st,
                        self.table@,
                        vaddr as int,
                        len as int,
                        required,
                        no_cow,
                        n.number as int,
                    ));
                    return Err(fault);
                },
            }
            above = above - 1;
        }
        Ok(
            Some(
                MemAccess {
                    start_page: start_page.number,
                    start_offset,
                    last_page: last_page.number,
                    last_page_end: end_offset + 1,
                },
            ),
        )
    }

    fn inner_load_with_prot<T: ICache, C: LookupCache>(
        &self,
        fabric: &CpuFabric<T>,
        cache: &mut C,
        vaddr: u64,
        mem: &mut [u8],
        required: Option<MemProt>,
    ) -> (r: Result<(), MemoryFault>)
        requires
            self.wf(*fabric),
            old(cache).consistent(*self, fabric.store@),
        ensures
            final(cache).consistent(*self, fabric.store@),
            load_outcome(
                fabric.store@,
                self.table@,
                vaddr as int,
                old(mem)@,
                final(mem)@,
                required,
                r,
            ),
    {
        let ghost st = fabric.store@;
        let ghost table = self.table@;
        let ghost before = mem@;
        let len: usize = mem.len();
        // a copy-on-write page can always be read
        let access: MemAccess = match self.mem_access(fabric, cache, vaddr, len, required, false) {
            Ok(Some(access)) => access,
            Ok(None) => {
                assert(mem@ =~= bytes_at(st, table, vaddr as int, 0));
                return Ok(());
            },
            Err(fault) => {
                return Err(fault);
            },
        };
        let mut n: u64 = access.start_page;
        let ghost mut done: int = 0;
        while n <= access.last_page
            invariant
                len == before.len(),
                mem@.len() == before.len(),
                mem.len() == len,
                access.covers(vaddr as int, len as int),
                access.last_page <= MAX_PAGE_NUMBER,
                can_access(st, table, vaddr as int, len as int, required, false),
                self.wf(*fabric),
                st == fabric.store@,
                table == self.table@,
                cache.consistent(*self, st),
                access.start_page <= n <= access.last_page + 1,
                done == (if n == access.start_page {
                    0
                } else if n <= access.last_page {
                    n * 4096 - vaddr
                } else {
                    len as int
                }),
                forall|i: int| 0 <= i < done ==> mem@[i] == byte_at(st, table, vaddr + i),
            decreases access.last_page + 1 - n,
        {
            assert(accessible(st, table, n as int, required, false));
            let page: Page = match cache.get_page(self, &fabric.store, PageNumber { number: n }) {
                Ok(page) => page,
                Err(fault) => {
                    return Err(fault);
                },
            };
            proof {
                lemma_resolved(st, self.table.space@, table, n as int);
            }
            let (page_start, dst_start, count) = access.page_run(n, Ghost(vaddr as int), len);
            let ghost mid = mem@;
            let bytes: &Vec<u8> = &fabric.store.host[page.ptr.page.index].bytes;
            assert(bytes@ == st.host[page.ptr.page.index as int].bytes);
            assert(bytes.len() == bytes@.len());
            copy_nonoverlapping_vm_to_host(bytes, page_start, mem, dst_start, count);
            proof {
                assert forall|i: int| 0 <= i < dst_start + count implies mem@[i] == byte_at(
                    st,
                    table,
                    vaddr + i,
                ) by {
                    if i < dst_start {
                        assert(mem@[i] == mid[i]);
                    } else {
                        let a = vaddr + i;
                        assert(page_of(a) == n && offset_of(a) == page_start + (i - dst_start));
                    }
                }
                done = dst_start + count;
            }
            n = n + 1;
        }
        assert(mem@ =~= bytes_at(st, table, vaddr as int, len as nat));
        Ok(())
    }
}

/// The store once the part of a store that lies in page `n` was written.
pub open spec fn store_run(
    st: StoreView,
    table: Map<u64, PageEntry>,
    vaddr: int,
    data: Seq<u8>,
    n: int,
) -> StoreView {
    let page = resolve(st, table, n)->0;
    let start = run_start(vaddr, n);
    let end = run_end(vaddr, data.len() as int, n);
    st.write(
        page.ptr.page.index as int,
        start,
        window(data, n * 4096 + start - vaddr, end - start),
    ).mark_dirty(page)
}

/// The store once the first `k` pages of a store were written, one after the
/// other.
pub open spec fn store_runs(
    st: StoreView,
    table: Map<u64, PageEntry>,
    vaddr: int,
    data: Seq<u8>,
    k: nat,
) -> StoreView
    decreases k,
{
    if k == 0 {
        st
    } else {
        store_run(
            store_runs(st, table, vaddr, data, (k - 1) as nat),
            table,
            vaddr,
            data,
            page_of(vaddr) + k - 1,
        )
    }
}

/// The number of pages that `vaddr..(vaddr + len)` touches.
pub open spec fn pages_touched(vaddr: int, len: int) -> nat {
    if len == 0 {
        0
    } else {
        (page_of(vaddr + len - 1) - page_of(vaddr) + 1) as nat
    }
}

/// What a store does and returns: all pages are written where all of them
/// may be, and otherwise there is a fault and no change.
pub open spec fn store_outcome(
    a: StoreView,
    b: StoreView,
    table: Map<u64, PageEntry>,
    vaddr: int,
    data: Seq<u8>,
    required: Option<MemProt>,
    r: Result<(), MemoryFault>,
) -> bool {
    let len = data.len() as int;
    &&& r is Ok <==> can_access(a, table, vaddr, len, required, true)
    &&& match r {
        Ok(()) => b == store_runs(a, table, vaddr, data, pages_touched(vaddr, len)),
        Err(fault) => {
            &&& b == a
            &&& access_fault(a, table, vaddr, len, required, true, fault)
        },
    }
}

/// A change of bytes and dirty states alone.
pub open spec fn same_pages(a: StoreView, b: StoreView) -> bool {
    &&& b.host.len() == a.host.len()
    &&& b.slots == a.slots
    &&& b.zero_page == a.zero_page
    &&& b.pages.len() == a.pages.len()
    &&& forall|i: int|
        #![trigger b.pages[i]]
        0 <= i < a.pages.len() ==> b.pages[i].allocated_page == a.pages[i].allocated_page
            && b.pages[i].should_dealloc == a.pages[i].should_dealloc && b.pages[i].refs
            == a.pages[i].refs && b.pages[i].holders == a.pages[i].holders
}

/// Address spaces do not depend on the bytes of pages and their dirty
/// states.
pub proof fn lemma_same_pages(a: StoreView, b: StoreView, space: nat, table: Map<u64, PageEntry>)
    requires
        a.wf(),
        same_pages(a, b),
        table_wf(a, space, table),
    ensures
        table_wf(b, space, table),
        forall|n: int| #[trigger] resolve(b, table, n) == resolve(a, table, n),
{
    let c = StoreView { host: a.host, ..b };
    lemma_dirty_only(a, c, space, table);
    assert forall|n: u64| #[trigger] table.contains_key(n) implies entry_ok(b, space, n, table[n]) by {
        assert(entry_ok(c, space, n, table[n]));
    }
    assert forall|i: int, n: u64|
        0 <= i < b.pages.len() && #[trigger] b.pages[i].holders@.contains(me(space, n)) implies
        table.contains_key(n) && refers_page(table[n], i) by {
        assert(c.pages[i].holders@.contains(me(space, n)));
    }
    assert forall|n: int| #[trigger] resolve(b, table, n) == resolve(a, table, n) by {
        assert(resolve(c, table, n) == resolve(a, table, n));
    }
}

impl IoMMU {
    fn inner_store_with_prot<T: ICache, C: LookupCache>(
        &self,
        fabric: &mut CpuFabric<T>,
        cache: &mut C,
        vaddr: u64,
        mem: &[u8],
        required: Option<MemProt>,
    ) -> (r: Result<(), MemoryFault>)
        requires
            self.wf(*old(fabric)),
            old(cache).consistent(*self, old(fabric).store@),
        ensures
            self.wf(*final(fabric)),
            final(cache).consistent(*self, final(fabric).store@),
            store_outcome(
                old(fabric).store@,
                final(fabric).store@,
                self.table@,
                vaddr as int,
                mem@,
                required,
                r,
            ),
            only_memory_changed(*old(fabric), *final(fabric)),
    {
        let ghost a = fabric.store@;
        let ghost table = self.table@;
        let len: usize = mem.len();
        // a copy-on-write page must not be stored to in place
        let access: MemAccess = match self.mem_access(fabric, cache, vaddr, len, required, true) {
            Ok(Some(access)) => access,
            Ok(None) => {
                return Ok(());
            },
            Err(fault) => {
                return Err(fault);
            },
        };
        let mut n: u64 = access.start_page;
        while n <= access.last_page
            invariant
                len == mem@.len(),
                len == mem.len(),
                access.covers(vaddr as int, len as int),
                access.last_page <= MAX_PAGE_NUMBER,
                can_access(a, table, vaddr as int, len as int, required, true),
                a.wf(),
                table_wf(a, self.table.space@, table),
                self.wf(*fabric),
                table == self.table@,
                cache.consistent(*self, fabric.store@),
                access.start_page <= n <= access.last_page + 1,
                same_pages(a, fabric.store@),
                fabric.store@ == store_runs(
                    a,
                    table,
                    vaddr as int,
                    mem@,
                    (n - access.start_page) as nat,
                ),
                only_memory_changed(*old(fabric), *fabric),
            decreases access.last_page + 1 - n,
        {
            let ghost mid = fabric.store@;
            proof {
                lemma_same_pages(a, mid, self.table.space@, table);
                assert(accessible(a, table, n as int, required, true));
                assert(resolve(mid, table, n as int) == resolve(a, table, n as int));
                lemma_resolved(mid, self.table.space@, table, n as int);
            }
            let page: Page = match cache.get_page(self, &fabric.store, PageNumber { number: n }) {
                Ok(page) => page,
                Err(fault) => {
                    return Err(fault);
                },
            };
            let (page_start, src_start, count) = access.page_run(n, Ghost(vaddr as int), len);
            fabric.store.write_bytes(page.ptr.page.index, page_start, mem, src_start, count);
            // recorded only after the bytes changed, so that the record
            // cannot be consumed before
            fabric.store.mark_dirty(page);
            proof {
                assert(same_pages(mid, fabric.store@));
                lemma_same_pages(mid, fabric.store@, self.table.space@, table);
                cache.lemma_consistent(*self, mid, fabric.store@);
                assert(fabric.store@ == store_run(mid, table, vaddr as int, mem@, n as int));
                lemma_bounded_same(mid, fabric.store@, fabric.spaces@);
            }
            n = n + 1;
        }
        Ok(())
    }
}

/// Nothing of the machine changed but its memory.
pub open spec fn only_memory_changed<T: ICache>(a: CpuFabric<T>, b: CpuFabric<T>) -> bool {
    &&& same_pages(a.store@, b.store@)
    &&& b.instruction_cache == a.instruction_cache
    &&& b.next_token == a.next_token
    &&& b.spaces == a.spaces
    &&& same_devices(a, b)
}

pub proof fn lemma_bounded_same(a: StoreView, b: StoreView, spaces: nat)
    requires
        same_pages(a, b),
        spaces_bounded(a, spaces),
    ensures
        spaces_bounded(b, spaces),
{
    assert forall|i: int, space: nat, n: u64|
        0 <= i < b.pages.len() && #[trigger] b.pages[i].holders@.contains(
            me(space, n),
        ) implies space < spaces by {
        assert(a.pages[i].holders@.contains(me(space, n)));
    }
}

/// What a load does and returns: the guest bytes where all of them may be
/// read, and otherwise a fault and no change.
pub open spec fn load_outcome(
    st: StoreView,
    table: Map<u64, PageEntry>,
    vaddr: int,
    before: Seq<u8>,
    after: Seq<u8>,
    required: Option<MemProt>,
    r: Result<(), MemoryFault>,
) -> bool {
    let len = before.len() as int;
    &&& r is Ok <==> can_access(st, table, vaddr, len, required, false)
    &&& match r {
        Ok(()) => after == bytes_at(st, table, vaddr, len as nat),
        Err(fault) => {
            &&& after == before
            &&& access_fault(st, table, vaddr, len, required, false, fault)
        },
    }
}

impl IoMMU {
    /// Loads `len` bytes from virtual memory into a new buffer.
    ///
    /// The load may span multiple pages. Every covered page must be mapped and have
    /// `READ` permission.
    pub fn load_into_uninit<T: ICache, C: LookupCache>(
        &self,
        fabric: &CpuFabric<T>,
        cache: &mut C,
        vaddr: u64,
        len: usize,
    ) -> (r: Result<Vec<u8>, MemoryFault>)
        requires
            self.wf(*fabric),
            old(cache).consistent(*self, fabric.store@),
        ensures
            final(cache).consistent(*self, fabric.store@),
            r is Ok <==> can_access(
                fabric.store@,
                self.table@,
                vaddr as int,
                len as int,
                Some(MemProt::spec_read()),
                false,
            ),
            match r {
                Ok(bytes) => bytes@ == bytes_at(
                    fabric.store@,
                    self.table@,
                    vaddr as int,
                    len as nat,
                ),
                Err(fault) => access_fault(
                    fabric.store@,
                    self.table@,
                    vaddr as int,
                    len as int,
                    Some(MemProt::spec_read()),
                    false,
                    fault,
                ),
            },
    {
        let mut bytes: Vec<u8> = vec![0u8; len];
        let slice: &mut [u8] = bytes.as_mut_slice();
        match self.inner_load_with_prot(fabric, cache, vaddr, slice, Some(MemProt::new(true, false, false))) {
            Ok(()) => Ok(bytes),
            Err(fault) => Err(fault),
        }
    }

    /// Loads `len` bytes from virtual memory into a new buffer.
    ///
    /// The load may span multiple pages. Every covered page must be mapped.
    pub fn load_into_uninit_force<T: ICache, C: LookupCache>(
        &self,
        fabric: &CpuFabric<T>,
        cache: &mut C,
        vaddr: u64,
        len: usize,
    ) -> (r: Result<Vec<u8>, MemoryFault>)
        requires
            self.wf(*fabric),
            old(cache).consistent(*self, fabric.store@),
        ensures
            final(cache).consistent(*self, fabric.store@),
            r is Ok <==> can_access(
                fabric.store@,
                self.table@,
                vaddr as int,
                len as int,
                None,
                false,
            ),
            match r {
                Ok(bytes) => bytes@ == bytes_at(
                    fabric.store@,
                    self.table@,
                    vaddr as int,
                    len as nat,
                ),
                Err(fault) => access_fault(
                    fabric.store@,
                    self.table@,
                    vaddr as int,
                    len as int,
                    None,
                    false,
                    fault,
                ),
            },
    {
        let mut bytes: Vec<u8> = vec![0u8; len];
        let slice: &mut [u8] = bytes.as_mut_slice();
        match self.inner_load_with_prot(fabric, cache, vaddr, slice, None) {
            Ok(()) => Ok(bytes),
            Err(fault) => Err(fault),
        }
    }

    /// Loads a byte slice from virtual memory into `mem`.
    ///
    /// The load may span multiple pages. Every covered page must be mapped and have
    /// `READ` permission.
    pub fn load<T: ICache, C: LookupCache>(
        &self,
        fabric: &CpuFabric<T>,
        cache: &mut C,
        vaddr: u64,
        mem: &mut [u8],
    ) -> (r: Result<(), MemoryFault>)
        requires
            self.wf(*fabric),
            old(cache).consistent(*self, fabric.store@),
        ensures
            final(cache).consistent(*self, fabric.store@),
            load_outcome(
                fabric.store@,
                self.table@,
                vaddr as int,
                old(mem)@,
                final(mem)@,
                Some(MemProt::spec_read()),
                r,
            ),
    {
        self.inner_load_with_prot(fabric, cache, vaddr, mem, Some(MemProt::new(true, false, false)))
    }

    /// Loads a byte slice from virtual memory into `mem`.
    ///
    /// The load may span multiple pages. Every covered page must be mapped.
    pub fn load_force<T: ICache, C: LookupCache>(
        &self,
        fabric: &CpuFabric<T>,
        cache: &mut C,
        vaddr: u64,
        mem: &mut [u8],
    ) -> (r: Result<(), MemoryFault>)
        requires
            self.wf(*fabric),
            old(cache).consistent(*self, fabric.store@),
        ensures
            final(cache).consistent(*self, fabric.store@),
            load_outcome(
                fabric.store@,
                self.table@,
                vaddr as int,
                old(mem)@,
                final(mem)@,
                None,
                r,
            ),
    {
        self.inner_load_with_prot(fabric, cache, vaddr, mem, None)
    }

    /// Stores a byte slice into virtual memory.
    ///
    /// The store may span multiple pages. Every covered page must be mapped and
    /// have `WRITE` permission.
    pub fn store<T: ICache, C: LookupCache>(
        &self,
        fabric: &mut CpuFabric<T>,
        cache: &mut C,
        vaddr: u64,
        mem: &[u8],
    ) -> (r: Result<(), MemoryFault>)
        requires
            self.wf(*old(fabric)),
            old(cache).consistent(*self, old(fabric).store@),
        ensures
            self.wf(*final(fabric)),
            final(cache).consistent(*self, final(fabric).store@),
            store_outcome(
                old(fabric).store@,
                final(fabric).store@,
                self.table@,
                vaddr as int,
                mem@,
                Some(MemProt::spec_write()),
                r,
            ),
            only_memory_changed(*old(fabric), *final(fabric)),
    {
        self.inner_store_with_prot(fabric, cache, vaddr, mem, Some(MemProt::new(false, true, false)))
    }

    /// Stores a byte slice into virtual memory.
    ///
    /// The store may span multiple pages. Every covered page must be mapped; a
    /// copy-on-write page is still refused.
    pub fn store_force<T: ICache, C: LookupCache>(
        &self,
        fabric: &mut CpuFabric<T>,
        cache: &mut C,
        vaddr: u64,
        mem: &[u8],
    ) -> (r: Result<(), MemoryFault>)
        requires
            self.wf(*old(fabric)),
            old(cache).consistent(*self, old(fabric).store@),
        ensures
            self.wf(*final(fabric)),
            final(cache).consistent(*self, final(fabric).store@),
            store_outcome(
                old(fabric).store@,
                final(fabric).store@,
                self.table@,
                vaddr as int,
                mem@,
                None,
                r,
            ),
            only_memory_changed(*old(fabric), *final(fabric)),
    {
        self.inner_store_with_prot(fabric, cache, vaddr, mem, None)
    }
}

} // verus!
