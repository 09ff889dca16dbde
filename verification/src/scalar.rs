//! Byte and scalar accesses to guest memory, and instruction fetch.
use vstd::prelude::*;
use vstd::arithmetic::mul::*;
use crate::access::{
    accessible, byte_at, bytes_at, lemma_bounded_same, lemma_resolved, lemma_same_pages,
    only_memory_changed, same_pages,
};
use crate::cpu_fabric::CpuFabric;
use crate::fault::{gp, MemoryFault};
use crate::icache::ICache;
use crate::io_mmu::IoMMU;
use crate::lookup_cache::LookupCache;
use crate::memops::{
    le_value, lemma_le_value_bound, lemma_le_value_concat, lemma_le_value_split,
    lemma_pow256_values, load16_le, load16_le_aligned, load32_le, load32_le_aligned, load64_le,
    load64_le_aligned, load_byte, pow256, store16_le, store32_le, store64_le, store_byte, to_le,
    window,
};
use crate::memory::{
    offset_of, page_of, MemProt, Page, PageNumber, MAX_PAGE_NUMBER, PAGE_SIZE,
};
use crate::page_store::{lemma_write, splice, HostPage, PageStore, StoreView};
use crate::page_table::{lookup, resolve, table_wf, PageEntry};

verus! {

/// Whether an access of `n` bytes at `vaddr` reaches into a second page.
pub open spec fn crosses(vaddr: int, n: int) -> bool {
    offset_of(vaddr) + n > 4096
}

/// Where a scalar access of `n` bytes at `vaddr` faults, if it does. Both
/// pages are resolved before permissions are checked; a missing permission
/// on the first page faults at the access itself.
pub open spec fn scalar_fault(
    st: StoreView,
    table: Map<u64, PageEntry>,
    vaddr: u64,
    n: int,
    prot: MemProt,
) -> Option<u64> {
    let page = page_of(vaddr as int);
    if resolve(st, table, page) is None {
        Some((page * 4096) as u64)
    } else if crosses(vaddr as int, n) && page == MAX_PAGE_NUMBER {
        Some(u64::MAX)
    } else if crosses(vaddr as int, n) && resolve(st, table, page + 1) is None {
        Some(((page + 1) * 4096) as u64)
    } else if !accessible(st, table, page, Some(prot), false) {
        Some(vaddr)
    } else if crosses(vaddr as int, n) && !accessible(st, table, page + 1, Some(prot), false) {
        Some(((page + 1) * 4096) as u64)
    } else {
        None
    }
}

/// The store once the scalar `data` was written at `vaddr`.
pub open spec fn store_scalar(
    st: StoreView,
    table: Map<u64, PageEntry>,
    vaddr: int,
    data: Seq<u8>,
) -> StoreView {
    let n = data.len() as int;
    let offset = offset_of(vaddr);
    let lo = resolve(st, table, page_of(vaddr))->0;
    if !crosses(vaddr, n) {
        st.write(lo.ptr.page.index as int, offset, data).mark_dirty(lo)
    } else {
        let hi = resolve(st, table, page_of(vaddr) + 1)->0;
        let in_lo = 4096 - offset;
        st.write(hi.ptr.page.index as int, 0, data.skip(in_lo)).write(
            lo.ptr.page.index as int,
            offset,
            data.take(in_lo),
        ).mark_dirty(lo).mark_dirty(hi)
    }
}

/// The pages of a small access: the first one with the offset in it, and the
/// second one with the number of bytes in it, where there is one.
#[derive(Clone, Copy, PartialEq, Eq, Structural, Debug)]
pub struct SmallAccess {
    pub base_page: Page,
    pub base_page_offset: usize,
    pub second_page: Option<SecondPage>,
}

#[derive(Clone, Copy, PartialEq, Eq, Structural, Debug)]
pub struct SecondPage {
    pub page: Page,
    pub overflow_amount: usize,
}

/// 256 to the power of `k`.
fn power(k: usize) -> (r: u64)
    requires
        k < 8,
    ensures
        r == pow256(k as nat),
        r > 0,
{
    proof {
        lemma_pow256_values();
    }
    match k {
        0 => 1,
        1 => 0x100,
        2 => 0x1_0000,
        3 => 0x100_0000,
        4 => 0x1_0000_0000,
        5 => 0x100_0000_0000,
        6 => 0x1_0000_0000_0000,
        _ => 0x100_0000_0000_0000,
    }
}

/// Puts together the scalar of `n` bytes that ends `k` bytes into a page,
/// from the last word of the page before and the first word of the page.
fn combine(lo: u64, hi: u64, n: usize, k: usize, lo_bytes: Ghost<Seq<u8>>, hi_bytes: Ghost<Seq<u8>>) -> (r:
    u64)
    requires
        0 < k < n <= 8,
        lo_bytes@.len() == n,
        hi_bytes@.len() == n,
        lo == le_value(lo_bytes@),
        hi == le_value(hi_bytes@),
    ensures
        r == le_value(lo_bytes@.skip(k as int) + hi_bytes@.take(k as int)),
{
    proof {
        lemma_le_value_split(lo_bytes@, k as nat);
        lemma_le_value_split(hi_bytes@, k as nat);
        let a = lo_bytes@.skip(k as int);
        let b = hi_bytes@.take(k as int);
        lemma_le_value_concat(a, b);
        lemma_le_value_bound(a + b);
        lemma_pow256_values();
        lemma_mul_is_commutative(pow256((n - k) as nat) as int, le_value(b) as int);
        lemma_mul_nonnegative(le_value(b) as int, pow256((n - k) as nat) as int);
        assert(pow256(n as nat) <= pow256(8)) by {
            if n < 8 {
                lemma_pow256_monotone(n as nat, 8);
            }
        }
    }
    let kept: u64 = lo / power(k);
    let taken: u64 = hi % power(k);
    kept + taken * power(n - k)
}

proof fn lemma_pow256_monotone(m: nat, n: nat)
    requires
        m <= n,
    ensures
        pow256(m) <= pow256(n),
    decreases n,
{
    if m < n {
        lemma_pow256_monotone(m, (n - 1) as nat);
    }
}

/// The `n` low little-endian bytes of `value`.
fn le_bytes(value: u64, n: usize) -> (r: Vec<u8>)
    requires
        n <= 8,
    ensures
        r@ == to_le(value as nat, n as nat),
{
    let mut bytes: Vec<u8> = Vec::new();
    let mut i: usize = 0;
    while i < n
        invariant
            i <= n <= 8,
            bytes@ == to_le(value as nat, i as nat),
        decreases n - i,
    {
        bytes.push(((value / power(i)) % 0x100) as u8);
        assert(bytes@ =~= to_le(value as nat, (i + 1) as nat));
        i += 1;
    }
    bytes
}

impl IoMMU {
    /// Resolves `vaddr` to the page that contains it, together with the
    /// in-page byte offset, for a naturally aligned scalar access of
    /// `access_size` bytes.
    ///
    /// Because `vaddr` is aligned to the access size, the access stays
    /// within the single returned page. Permissions are not checked.
    pub fn resolve_aligned_scalar_access<T: ICache, C: LookupCache>(
        &self,
        fabric: &CpuFabric<T>,
        cache: &mut C,
        vaddr: u64,
        access_size: usize,
    ) -> (r: Result<(Page, usize), MemoryFault>)
        requires
            self.wf(*fabric),
            old(cache).consistent(*self, fabric.store@),
            0 < access_size < PAGE_SIZE,
            PAGE_SIZE % access_size == 0,
        ensures
            final(cache).consistent(*self, fabric.store@),
            if vaddr as int % access_size as int != 0 {
                r == Err::<(Page, usize), MemoryFault>(gp(vaddr))
            } else {
                match lookup(fabric.store@, self.table@, page_of(vaddr as int)) {
                    Ok(page) => r == Ok::<(Page, usize), MemoryFault>(
                        (page, offset_of(vaddr as int) as usize),
                    ) && offset_of(vaddr as int) + access_size <= 4096,
                    Err(fault) => r == Err::<(Page, usize), MemoryFault>(fault),
                }
            },
    {
        if vaddr % access_size as u64 != 0 {
            return Err(MemoryFault::general_protection(vaddr));
        }
        let (page_num, offset) = PageNumber::from_vaddr_with_offset(vaddr);
        proof {
            lemma_aligned_offset(vaddr as int, access_size as int);
        }
        match cache.get_page(self, &fabric.store, page_num) {
            Ok(page) => Ok((page, offset)),
            Err(fault) => Err(fault),
        }
    }

    /// Resolves `vaddr` for a single-byte access, which is never misaligned.
    pub fn resolve_byte_access<T: ICache, C: LookupCache>(
        &self,
        fabric: &CpuFabric<T>,
        cache: &mut C,
        vaddr: u64,
    ) -> (r: Result<(Page, usize), MemoryFault>)
        requires
            self.wf(*fabric),
            old(cache).consistent(*self, fabric.store@),
        ensures
            final(cache).consistent(*self, fabric.store@),
            match lookup(fabric.store@, self.table@, page_of(vaddr as int)) {
                Ok(page) => r == Ok::<(Page, usize), MemoryFault>(
                    (page, offset_of(vaddr as int) as usize),
                ),
                Err(fault) => r == Err::<(Page, usize), MemoryFault>(fault),
            },
    {
        self.resolve_aligned_scalar_access(fabric, cache, vaddr, 1)
    }

    /// Loads a single byte. The page has to be mapped with `READ`.
    pub fn load_byte<T: ICache, C: LookupCache>(
        &self,
        fabric: &CpuFabric<T>,
        cache: &mut C,
        vaddr: u64,
    ) -> (r: Result<u8, MemoryFault>)
        requires
            self.wf(*fabric),
            old(cache).consistent(*self, fabric.store@),
        ensures
            final(cache).consistent(*self, fabric.store@),
            match scalar_fault(fabric.store@, self.table@, vaddr, 1, MemProt::spec_read()) {
                Some(at) => r == Err::<u8, MemoryFault>(gp(at)),
                None => r == Ok::<u8, MemoryFault>(
                    byte_at(fabric.store@, self.table@, vaddr as int),
                ),
            },
    {
        let (page, offset) = match self.resolve_byte_access(fabric, cache, vaddr) {
            Ok(found) => found,
            Err(fault) => {
                return Err(fault);
            },
        };
        if !page.ptr.flags.contains_any(MemProt::new(true, false, false)) {
            return Err(MemoryFault::general_protection(vaddr));
        }
        proof {
            lemma_resolved(
                fabric.store@,
                self.table.space@,
                self.table@,
                page_of(vaddr as int),
            );
        }
        Ok(load_byte(&fabric.store.host[page.ptr.page.index].bytes, offset))
    }

    /// Stores a single byte. The page has to be mapped with `WRITE`.
    pub fn store_byte<T: ICache, C: LookupCache>(
        &self,
        fabric: &mut CpuFabric<T>,
        cache: &mut C,
        vaddr: u64,
        value: u8,
    ) -> (r: Result<(), MemoryFault>)
        requires
            self.wf(*old(fabric)),
            old(cache).consistent(*self, old(fabric).store@),
        ensures
            self.wf(*final(fabric)),
            final(cache).consistent(*self, final(fabric).store@),
            only_memory_changed(*old(fabric), *final(fabric)),
            store_scalar_outcome(
                old(fabric).store@,
                final(fabric).store@,
                self.table@,
                vaddr,
                seq![value],
                r,
            ),
    {
        let ghost a = fabric.store@;
        let (page, offset) = match self.resolve_byte_access(fabric, cache, vaddr) {
            Ok(found) => found,
            Err(fault) => {
                return Err(fault);
            },
        };
        if !page.ptr.flags.contains_any(MemProt::new(false, true, false)) {
            return Err(MemoryFault::general_protection(vaddr));
        }
        proof {
            lemma_resolved(a, self.table.space@, self.table@, page_of(vaddr as int));
        }
        let h: usize = page.ptr.page.index;
        store_byte(&mut fabric.store.host[h].bytes, offset, value);
        proof {
            lemma_write(a, fabric.store@, h as int, offset as int, seq![value]);
        }
        fabric.store.mark_dirty(page);
        proof {
            lemma_stored(a, fabric.store@, self.table.space@, self.table@, fabric.spaces@);
            cache.lemma_consistent(*self, a, fabric.store@);
        }
        Ok(())
    }

    /// The pages of an access of `n` bytes at `vaddr`.
    fn static_small_multibyte_access<T: ICache, C: LookupCache>(
        &self,
        fabric: &CpuFabric<T>,
        cache: &mut C,
        vaddr: u64,
        n: usize,
    ) -> (r: Result<SmallAccess, MemoryFault>)
        requires
            self.wf(*fabric),
            old(cache).consistent(*self, fabric.store@),
            0 < n <= 2 * PAGE_SIZE,
        ensures
            final(cache).consistent(*self, fabric.store@),
            small_access(fabric.store@, self.table@, vaddr as int, n as int, r),
    {
        let (base_page_num, base_page_offset) = PageNumber::from_vaddr_with_offset(vaddr);
        let base_page: Page = match cache.get_page(self, &fabric.store, base_page_num) {
            Ok(page) => page,
            Err(fault) => {
                return Err(fault);
            },
        };
        let bytes_left_in_base_page: usize = PAGE_SIZE - base_page_offset;
        if n <= bytes_left_in_base_page {
            return Ok(SmallAccess { base_page, base_page_offset, second_page: None });
        }
        let second_page_num = match base_page_num.inc() {
            Some(number) => number,
            None => {
                return Err(MemoryFault::general_protection(u64::MAX));
            },
        };
        match cache.get_page(self, &fabric.store, second_page_num) {
            Ok(page) => {
                let second = SecondPage { page, overflow_amount: n - bytes_left_in_base_page };
                Ok(SmallAccess { base_page, base_page_offset, second_page: Some(second) })
            },
            Err(fault) => Err(fault),
        }
    }

    /// Loads a little-endian scalar of `n` bytes.
    fn load_le<T: ICache, C: LookupCache>(
        &self,
        fabric: &CpuFabric<T>,
        cache: &mut C,
        vaddr: u64,
        n: usize,
    ) -> (r: Result<u64, MemoryFault>)
        requires
            self.wf(*fabric),
            old(cache).consistent(*self, fabric.store@),
            n == 2 || n == 4 || n == 8,
        ensures
            final(cache).consistent(*self, fabric.store@),
            load_scalar_outcome(fabric.store@, self.table@, vaddr, n as nat, r),
    {
        let ghost st = fabric.store@;
        let ghost table = self.table@;
        let ghost page = page_of(vaddr as int);
        let access = match self.static_small_multibyte_access(fabric, cache, vaddr, n) {
            Ok(access) => access,
            Err(fault) => {
                return Err(fault);
            },
        };
        let read = MemProt::new(true, false, false);
        let lo = access.base_page;
        let offset: usize = access.base_page_offset;
        if !lo.ptr.flags.contains_any(read) {
            return Err(MemoryFault::general_protection(vaddr));
        }
        proof {
            lemma_resolved(st, self.table.space@, table, page);
            lemma_resolved(st, self.table.space@, table, page + 1);
        }
        let lo_bytes: &Vec<u8> = &fabric.store.host[lo.ptr.page.index].bytes;
        assert(lo_bytes@ == st.host[lo.ptr.page.index as int].bytes);
        assert(lo_bytes.len() == lo_bytes@.len());
        match access.second_page {
            None => {
                let value: u64 = match n {
                    2 => load16_le(lo_bytes, offset) as u64,
                    4 => load32_le(lo_bytes, offset) as u64,
                    _ => load64_le(lo_bytes, offset),
                };
                assert(window(lo_bytes@, offset as int, n as int) =~= bytes_at(
                    st,
                    table,
                    vaddr as int,
                    n as nat,
                ));
                Ok(value)
            },
            Some(second) => {
                let hi = second.page;
                if !hi.ptr.flags.contains_any(read) {
                    return Err(MemoryFault::general_protection(next_page_base(vaddr)));
                }
                let hi_bytes: &Vec<u8> = &fabric.store.host[hi.ptr.page.index].bytes;
                assert(hi_bytes@ == st.host[hi.ptr.page.index as int].bytes);
                assert(hi_bytes.len() == hi_bytes@.len());
                // the last word of the first page and the first word of the
                // second page hold all bytes of the scalar
                let lo_offset: usize = PAGE_SIZE - n;
                let (lo_word, hi_word): (u64, u64) = match n {
                    2 => (
                        load16_le_aligned(lo_bytes, lo_offset) as u64,
                        load16_le_aligned(hi_bytes, 0) as u64,
                    ),
                    4 => (
                        load32_le_aligned(lo_bytes, lo_offset) as u64,
                        load32_le_aligned(hi_bytes, 0) as u64,
                    ),
                    _ => (load64_le_aligned(lo_bytes, lo_offset), load64_le_aligned(hi_bytes, 0)),
                };
                let k: usize = second.overflow_amount;
                let ghost lo_part = window(lo_bytes@, lo_offset as int, n as int);
                let ghost hi_part = window(hi_bytes@, 0, n as int);
                let value: u64 = combine(lo_word, hi_word, n, k, Ghost(lo_part), Ghost(hi_part));
                assert(lo_part.skip(k as int) + hi_part.take(k as int) =~= bytes_at(
                    st,
                    table,
                    vaddr as int,
                    n as nat,
                ));
                Ok(value)
            },
        }
    }

    /// Stores the low `n` bytes of `value` as a little-endian scalar.
    fn store_le<T: ICache, C: LookupCache>(
        &self,
        fabric: &mut CpuFabric<T>,
        cache: &mut C,
        vaddr: u64,
        value: u64,
        n: usize,
    ) -> (r: Result<(), MemoryFault>)
        requires
            self.wf(*old(fabric)),
            old(cache).consistent(*self, old(fabric).store@),
            n == 2 || n == 4 || n == 8,
            value < pow256(n as nat),
        ensures
            self.wf(*final(fabric)),
            final(cache).consistent(*self, final(fabric).store@),
            only_memory_changed(*old(fabric), *final(fabric)),
            store_scalar_outcome(
                old(fabric).store@,
                final(fabric).store@,
                self.table@,
                vaddr,
                to_le(value as nat, n as nat),
                r,
            ),
    {
        let ghost a = fabric.store@;
        let ghost table = self.table@;
        let ghost page = page_of(vaddr as int);
        let ghost data = to_le(value as nat, n as nat);
        proof {
            lemma_pow256_values();
        }
        let access = match self.static_small_multibyte_access(fabric, cache, vaddr, n) {
            Ok(access) => access,
            Err(fault) => {
                return Err(fault);
            },
        };
        let write = MemProt::new(false, true, false);
        let lo = access.base_page;
        let offset: usize = access.base_page_offset;
        if !lo.ptr.flags.contains_any(write) {
            return Err(MemoryFault::general_protection(vaddr));
        }
        proof {
            lemma_resolved(a, self.table.space@, table, page);
            lemma_resolved(a, self.table.space@, table, page + 1);
        }
        let lo_h: usize = lo.ptr.page.index;
        match access.second_page {
            None => {
                write_scalar(&mut fabric.store, lo_h, offset, value, n);
                fabric.store.mark_dirty(lo);
            },
            Some(second) => {
                let hi = second.page;
                if !hi.ptr.flags.contains_any(write) {
                    return Err(MemoryFault::general_protection(next_page_base(vaddr)));
                }
                let bytes: Vec<u8> = le_bytes(value, n);
                let in_lo: usize = n - second.overflow_amount;
                store_crossing(&mut fabric.store, lo_h, offset, hi.ptr.page.index, &bytes, in_lo);
                fabric.store.mark_dirty(lo);
                fabric.store.mark_dirty(hi);
            },
        }
        proof {
            assert(fabric.store@ == store_scalar(a, table, vaddr as int, data));
            lemma_store_scalar(a, self.table.space@, table, vaddr as int, data);
            lemma_stored(a, fabric.store@, self.table.space@, table, fabric.spaces@);
            cache.lemma_consistent(*self, a, fabric.store@);
        }
        Ok(())
    }
}

/// A scalar store changes bytes and dirty states alone.
pub(crate) proof fn lemma_store_scalar(
    st: StoreView,
    space: nat,
    table: Map<u64, PageEntry>,
    vaddr: int,
    data: Seq<u8>,
)
    requires
        st.wf(),
        table_wf(st, space, table),
        resolve(st, table, page_of(vaddr)) is Some,
        crosses(vaddr, data.len() as int) ==> resolve(st, table, page_of(vaddr) + 1) is Some,
    ensures
        same_pages(st, store_scalar(st, table, vaddr, data)),
{
    lemma_resolved(st, space, table, page_of(vaddr));
    lemma_resolved(st, space, table, page_of(vaddr) + 1);
}

/// Writes the low `n` bytes of `value` to host page `h`, from `offset` on.
pub(crate) fn write_scalar(store: &mut PageStore, h: usize, offset: usize, value: u64, n: usize)
    requires
        old(store)@.wf(),
        old(store)@.writable(h as int),
        n == 1 || n == 2 || n == 4 || n == 8,
        offset + n <= PAGE_SIZE,
        value < pow256(n as nat),
    ensures
        final(store)@.wf(),
        final(store)@ == old(store)@.write(
            h as int,
            offset as int,
            to_le(value as nat, n as nat),
        ),
{
    proof {
        lemma_pow256_values();
    }
    let ghost a = store@;
    assert(store.host[h as int].bytes@ == a.host[h as int].bytes);
    let page: &mut HostPage = &mut store.host[h];
    assert(page.bytes.len() == page.bytes@.len());
    match n {
        1 => {
            store_byte(&mut page.bytes, offset, value as u8);
            assert(to_le(value as nat, 1) =~= seq![value as u8]);
        },
        2 => {
            store16_le(&mut page.bytes, offset, value as u16);
        },
        4 => {
            store32_le(&mut page.bytes, offset, value as u32);
        },
        _ => {
            store64_le(&mut page.bytes, offset, value);
        },
    }
    proof {
        lemma_write(a, store@, h as int, offset as int, to_le(value as nat, n as nat));
    }
}

/// The base of the page behind that of `vaddr`, which must not be the last
/// page.
fn next_page_base(vaddr: u64) -> (r: u64)
    requires
        page_of(vaddr as int) < MAX_PAGE_NUMBER,
    ensures
        r == (page_of(vaddr as int) + 1) * 4096,
{
    (vaddr / 4096 + 1) * 4096
}

/// Stores `bytes` across the end of a page, byte by byte from the last one
/// down: the first `in_lo` of them end host page `lo`, the others start host
/// page `hi`.
fn store_crossing(
    store: &mut PageStore,
    lo: usize,
    offset: usize,
    hi: usize,
    bytes: &Vec<u8>,
    in_lo: usize,
)
    requires
        old(store)@.wf(),
        old(store)@.writable(lo as int),
        old(store)@.writable(hi as int),
        offset + in_lo == PAGE_SIZE,
        0 < in_lo < bytes.len() <= 8,
    ensures
        final(store)@.wf(),
        final(store)@ == old(store)@.write(hi as int, 0, bytes@.skip(in_lo as int)).write(
            lo as int,
            offset as int,
            bytes@.take(in_lo as int),
        ),
{
    let ghost a = store@;
    let ghost hi_part = bytes@.skip(in_lo as int);
    let ghost lo_part = bytes@.take(in_lo as int);
    let n: usize = bytes.len();
    let overflow: usize = n - in_lo;
    let mut left: usize = overflow;
    proof {
        lemma_write_nothing(a, hi as int, left as int, hi_part.skip(left as int));
    }
    while left > 0
        invariant
            n == bytes@.len(),
            n == bytes.len(),
            n <= 8,
            overflow == n - in_lo,
            0 < in_lo < n,
            left <= overflow,
            hi_part == bytes@.skip(in_lo as int),
            a.wf(),
            a.writable(hi as int),
            store@.wf(),
            store@ == a.write(hi as int, left as int, hi_part.skip(left as int)),
        decreases left,
    {
        left = left - 1;
        let ghost mid = store@;
        assert(store.host[hi as int].bytes@ == mid.host[hi as int].bytes);
        store_byte(&mut store.host[hi].bytes, left, bytes[in_lo + left]);
        proof {
            let one = seq![bytes@[in_lo + left]];
            lemma_write(mid, store@, hi as int, left as int, one);
            assert(splice(mid.host[hi as int].bytes, left as int, one) =~= splice(
                a.host[hi as int].bytes,
                left as int,
                hi_part.skip(left as int),
            ));
            assert(store@ =~= a.write(hi as int, left as int, hi_part.skip(left as int)));
        }
    }
    assert(hi_part.skip(0) =~= hi_part);
    let ghost b = store@;
    assert(b == a.write(hi as int, 0, hi_part));
    let mut left: usize = in_lo;
    proof {
        lemma_write_nothing(b, lo as int, offset + left, lo_part.skip(left as int));
    }
    while left > 0
        invariant
            n == bytes@.len(),
            n == bytes.len(),
            n <= 8,
            0 < in_lo < n,
            left <= in_lo,
            offset + in_lo == PAGE_SIZE,
            lo_part == bytes@.take(in_lo as int),
            b.wf(),
            b.writable(lo as int),
            store@.wf(),
            store@ == b.write(lo as int, offset + left, lo_part.skip(left as int)),
        decreases left,
    {
        left = left - 1;
        let ghost mid = store@;
        assert(store.host[lo as int].bytes@ == mid.host[lo as int].bytes);
        store_byte(&mut store.host[lo].bytes, offset + left, bytes[left]);
        proof {
            let one = seq![bytes@[left as int]];
            lemma_write(mid, store@, lo as int, offset + left, one);
            assert(splice(mid.host[lo as int].bytes, offset + left, one) =~= splice(
                b.host[lo as int].bytes,
                offset + left,
                lo_part.skip(left as int),
            ));
            assert(store@ =~= b.write(lo as int, offset + left, lo_part.skip(left as int)));
        }
    }
    assert(lo_part.skip(0) =~= lo_part);
}

/// Writing no bytes changes nothing.
proof fn lemma_write_nothing(st: StoreView, h: int, offset: int, data: Seq<u8>)
    requires
        0 <= h < st.host.len(),
        data.len() == 0,
    ensures
        st.write(h, offset, data) == st,
{
    assert(splice(st.host[h].bytes, offset, data) =~= st.host[h].bytes);
    assert(st.write(h, offset, data).host =~= st.host);
}

/// What resolving the pages of a small access gives.
pub open spec fn small_access(
    st: StoreView,
    table: Map<u64, PageEntry>,
    vaddr: int,
    n: int,
    r: Result<SmallAccess, MemoryFault>,
) -> bool {
    let page = page_of(vaddr);
    if resolve(st, table, page) is None {
        r == Err::<SmallAccess, MemoryFault>(gp((page * 4096) as u64))
    } else if !crosses(vaddr, n) {
        r == Ok::<SmallAccess, MemoryFault>(
            SmallAccess {
                base_page: resolve(st, table, page)->0,
                base_page_offset: offset_of(vaddr) as usize,
                second_page: None,
            },
        )
    } else if page == MAX_PAGE_NUMBER {
        r == Err::<SmallAccess, MemoryFault>(gp(u64::MAX))
    } else if resolve(st, table, page + 1) is None {
        r == Err::<SmallAccess, MemoryFault>(gp(((page + 1) * 4096) as u64))
    } else {
        r == Ok::<SmallAccess, MemoryFault>(
            SmallAccess {
                base_page: resolve(st, table, page)->0,
                base_page_offset: offset_of(vaddr) as usize,
                second_page: Some(
                    SecondPage {
                        page: resolve(st, table, page + 1)->0,
                        overflow_amount: (offset_of(vaddr) + n - 4096) as usize,
                    },
                ),
            },
        )
    }
}

/// What a scalar load returns.
pub open spec fn load_scalar_outcome(
    st: StoreView,
    table: Map<u64, PageEntry>,
    vaddr: u64,
    n: nat,
    r: Result<u64, MemoryFault>,
) -> bool {
    match scalar_fault(st, table, vaddr, n as int, MemProt::spec_read()) {
        Some(at) => r == Err::<u64, MemoryFault>(gp(at)),
        None => r matches Ok(value) && value == le_value(bytes_at(st, table, vaddr as int, n)),
    }
}

/// What a scalar store does and returns.
pub open spec fn store_scalar_outcome(
    a: StoreView,
    b: StoreView,
    table: Map<u64, PageEntry>,
    vaddr: u64,
    data: Seq<u8>,
    r: Result<(), MemoryFault>,
) -> bool {
    match scalar_fault(a, table, vaddr, data.len() as int, MemProt::spec_write()) {
        Some(at) => r == Err::<(), MemoryFault>(gp(at)) && b == a,
        None => r is Ok && b == store_scalar(a, table, vaddr as int, data),
    }
}

/// An offset that the access size divides leaves room for the access.
proof fn lemma_aligned_offset(vaddr: int, size: int)
    requires
        0 <= vaddr,
        0 < size < 4096,
        4096int % size == 0,
        vaddr % size == 0,
    ensures
        offset_of(vaddr) + size <= 4096,
{
    let q = vaddr / size;
    let c = 4096int / size;
    let o = offset_of(vaddr);
    let p = page_of(vaddr);
    vstd::arithmetic::div_mod::lemma_fundamental_div_mod(vaddr, size);
    vstd::arithmetic::div_mod::lemma_fundamental_div_mod(4096, size);
    assert(o == vaddr - p * 4096);
    assert(o == size * q - p * (size * c));
    assert(o == size * (q - p * c)) by (nonlinear_arith)
        requires
            o == size * q - p * (size * c),
    ;
    let k = q - p * c;
    assert(k < c) by (nonlinear_arith)
        requires
            o == size * k,
            o < 4096,
            size * c == 4096,
            size > 0,
    ;
    assert(size * k + size <= size * c) by (nonlinear_arith)
        requires
            k < c,
            size > 0,
    ;
}

/// After a store the address space is as before but for bytes and dirty
/// states.
pub proof fn lemma_stored(a: StoreView, b: StoreView, space: nat, table: Map<u64, PageEntry>, spaces: nat)
    requires
        a.wf(),
        same_pages(a, b),
        table_wf(a, space, table),
        crate::cpu_fabric::spaces_bounded(a, spaces),
    ensures
        table_wf(b, space, table),
        forall|n: int| #[trigger] resolve(b, table, n) == resolve(a, table, n),
        crate::cpu_fabric::spaces_bounded(b, spaces),
{
    lemma_same_pages(a, b, space, table);
    lemma_bounded_same(a, b, spaces);
}

impl IoMMU {
    /// Loads a 64-bit little-endian scalar. Every page of it has to be
    /// mapped with `READ`.
    pub fn load64_le<T: ICache, C: LookupCache>(
        &self,
        fabric: &CpuFabric<T>,
        cache: &mut C,
        vaddr: u64,
    ) -> (r: Result<u64, MemoryFault>)
        requires
            self.wf(*fabric),
            old(cache).consistent(*self, fabric.store@),
        ensures
            final(cache).consistent(*self, fabric.store@),
            match scalar_fault(fabric.store@, self.table@, vaddr, 8, MemProt::spec_read()) {
                Some(at) => r == Err::<u64, MemoryFault>(gp(at)),
                None => r matches Ok(value) && value == le_value(
                    bytes_at(fabric.store@, self.table@, vaddr as int, 8),
                ),
            },
    {
        proof {
            lemma_pow256_values();
            lemma_le_value_bound(bytes_at(fabric.store@, self.table@, vaddr as int, 8));
        }
        match self.load_le(fabric, cache, vaddr, 8) {
            Ok(value) => Ok(value),
            Err(fault) => Err(fault),
        }
    }

    /// Stores a 64-bit little-endian scalar. Every page of it has to be
    /// mapped with `WRITE`.
    pub fn store64_le<T: ICache, C: LookupCache>(
        &self,
        fabric: &mut CpuFabric<T>,
        cache: &mut C,
        vaddr: u64,
        value: u64,
    ) -> (r: Result<(), MemoryFault>)
        requires
            self.wf(*old(fabric)),
            old(cache).consistent(*self, old(fabric).store@),
        ensures
            self.wf(*final(fabric)),
            final(cache).consistent(*self, final(fabric).store@),
            only_memory_changed(*old(fabric), *final(fabric)),
            store_scalar_outcome(
                old(fabric).store@,
                final(fabric).store@,
                self.table@,
                vaddr,
                to_le(value as nat, 8),
                r,
            ),
    {
        proof {
            lemma_pow256_values();
        }
        self.store_le(fabric, cache, vaddr, value, 8)
    }

    /// Loads a 32-bit little-endian scalar. Every page of it has to be
    /// mapped with `READ`.
    pub fn load32_le<T: ICache, C: LookupCache>(
        &self,
        fabric: &CpuFabric<T>,
        cache: &mut C,
        vaddr: u64,
    ) -> (r: Result<u32, MemoryFault>)
        requires
            self.wf(*fabric),
            old(cache).consistent(*self, fabric.store@),
        ensures
            final(cache).consistent(*self, fabric.store@),
            match scalar_fault(fabric.store@, self.table@, vaddr, 4, MemProt::spec_read()) {
                Some(at) => r == Err::<u32, MemoryFault>(gp(at)),
                None => r matches Ok(value) && value == le_value(
                    bytes_at(fabric.store@, self.table@, vaddr as int, 4),
                ),
            },
    {
        proof {
            lemma_pow256_values();
            lemma_le_value_bound(bytes_at(fabric.store@, self.table@, vaddr as int, 4));
        }
        match self.load_le(fabric, cache, vaddr, 4) {
            Ok(value) => Ok(value as u32),
            Err(fault) => Err(fault),
        }
    }

    /// Stores a 32-bit little-endian scalar. Every page of it has to be
    /// mapped with `WRITE`.
    pub fn store32_le<T: ICache, C: LookupCache>(
        &self,
        fabric: &mut CpuFabric<T>,
        cache: &mut C,
        vaddr: u64,
        value: u32,
    ) -> (r: Result<(), MemoryFault>)
        requires
            self.wf(*old(fabric)),
            old(cache).consistent(*self, old(fabric).store@),
        ensures
            self.wf(*final(fabric)),
            final(cache).consistent(*self, final(fabric).store@),
            only_memory_changed(*old(fabric), *final(fabric)),
            store_scalar_outcome(
                old(fabric).store@,
                final(fabric).store@,
                self.table@,
                vaddr,
                to_le(value as nat, 4),
                r,
            ),
    {
        proof {
            lemma_pow256_values();
        }
        self.store_le(fabric, cache, vaddr, value as u64, 4)
    }

    /// Loads a 16-bit little-endian scalar. Every page of it has to be
    /// mapped with `READ`.
    pub fn load16_le<T: ICache, C: LookupCache>(
        &self,
        fabric: &CpuFabric<T>,
        cache: &mut C,
        vaddr: u64,
    ) -> (r: Result<u16, MemoryFault>)
        requires
            self.wf(*fabric),
            old(cache).consistent(*self, fabric.store@),
        ensures
            final(cache).consistent(*self, fabric.store@),
            match scalar_fault(fabric.store@, self.table@, vaddr, 2, MemProt::spec_read()) {
                Some(at) => r == Err::<u16, MemoryFault>(gp(at)),
                None => r matches Ok(value) && value == le_value(
                    bytes_at(fabric.store@, self.table@, vaddr as int, 2),
                ),
            },
    {
        proof {
            lemma_pow256_values();
            lemma_le_value_bound(bytes_at(fabric.store@, self.table@, vaddr as int, 2));
        }
        match self.load_le(fabric, cache, vaddr, 2) {
            Ok(value) => Ok(value as u16),
            Err(fault) => Err(fault),
        }
    }

    /// Stores a 16-bit little-endian scalar. Every page of it has to be
    /// mapped with `WRITE`.
    pub fn store16_le<T: ICache, C: LookupCache>(
        &self,
        fabric: &mut CpuFabric<T>,
        cache: &mut C,
        vaddr: u64,
        value: u16,
    ) -> (r: Result<(), MemoryFault>)
        requires
            self.wf(*old(fabric)),
            old(cache).consistent(*self, old(fabric).store@),
        ensures
            self.wf(*final(fabric)),
            final(cache).consistent(*self, final(fabric).store@),
            only_memory_changed(*old(fabric), *final(fabric)),
            store_scalar_outcome(
                old(fabric).store@,
                final(fabric).store@,
                self.table@,
                vaddr,
                to_le(value as nat, 2),
                r,
            ),
    {
        proof {
            lemma_pow256_values();
        }
        self.store_le(fabric, cache, vaddr, value as u64, 2)
    }

    /// Fetches the 32-bit little-endian instruction word at `vaddr`, which
    /// must be 4-byte aligned and lie in a page mapped with `EXECUTE`.
    pub fn fetch_aarch64<T: ICache, C: LookupCache>(
        &self,
        fabric: &CpuFabric<T>,
        cache: &mut C,
        vaddr: u64,
    ) -> (r: Result<u32, MemoryFault>)
        requires
            self.wf(*fabric),
            old(cache).consistent(*self, fabric.store@),
        ensures
            final(cache).consistent(*self, fabric.store@),
            if vaddr % 4 != 0 {
                r == Err::<u32, MemoryFault>(gp(vaddr))
            } else {
                match resolve(fabric.store@, self.table@, page_of(vaddr as int)) {
                    None => r == Err::<u32, MemoryFault>(
                        gp((page_of(vaddr as int) * 4096) as u64),
                    ),
                    Some(page) => if !page.ptr.flags.execute {
                        r == Err::<u32, MemoryFault>(gp(vaddr))
                    } else {
                        r matches Ok(word) && word == le_value(
                            bytes_at(fabric.store@, self.table@, vaddr as int, 4),
                        )
                    },
                }
            },
    {
        let (page, offset) = match self.resolve_aligned_scalar_access(fabric, cache, vaddr, 4) {
            Ok(found) => found,
            Err(fault) => {
                return Err(fault);
            },
        };
        if !page.ptr.flags.contains_any(MemProt::new(false, false, true)) {
            return Err(MemoryFault::general_protection(vaddr));
        }
        proof {
            lemma_resolved(
                fabric.store@,
                self.table.space@,
                self.table@,
                page_of(vaddr as int),
            );
        }
        let bytes: &Vec<u8> = &fabric.store.host[page.ptr.page.index].bytes;
        assert(bytes.len() == bytes@.len());
        assert(window(bytes@, offset as int, 4) =~= bytes_at(
            fabric.store@,
            self.table@,
            vaddr as int,
            4,
        ));
        Ok(load32_le_aligned(bytes, offset))
    }
}

} // verus!
