//! The page table of one address space.
use vstd::prelude::*;
use vstd::std_specs::iter::IteratorSpec;
use std::collections::HashMap;
use crate::dirty::{close_epoch, open_epoch, with_epoch, without_epoch};
use crate::fault::{gp, MemoryFault};
use crate::icache::{ICache, Notified};
use crate::memory::{
    MemFlags, MemProt, Page, PageNumber, PagePointer, TaggedPagePtr, MAX_PAGE_NUMBER,
};
use crate::page_store::{counts, zero_bytes, Holder, PageStore, StoreView};

verus! {

broadcast use vstd::std_specs::hash::group_hash_axioms;

/// Where the bytes of a mapped page come from.
#[derive(Clone, Copy, PartialEq, Eq, Structural, Debug)]
pub enum PageSource {
    /// A page that forked address spaces share.
    Shared(usize),
    /// A page of this address space, or a copy-on-write view of a page when
    /// it is write protected.
    Private { page: usize, write_protected: bool },
    /// A page of a memory object.
    Object { slot: usize, shared: bool },
}

/// A mapping of one guest page.
#[derive(Clone, Copy, PartialEq, Eq, Structural, Debug)]
pub struct PageEntry {
    pub source: PageSource,
    pub protections: MemProt,
}

/// How pages of a mapping are held.
#[derive(Clone, Copy, PartialEq, Eq, Structural, Debug)]
pub enum MemMapFlags {
    Private,
    Shared,
    Cow,
}

/// What a new mapping shows.
#[derive(Clone, Copy, PartialEq, Eq, Structural, Debug)]
pub enum MapRegion {
    /// Pages of a memory object, from its first page on.
    Object { shared: bool, object: u64 },
    /// Consecutive pages of the embedder's memory.
    Extern { flags: MemMapFlags, base_ptr: PagePointer },
    /// Memory that starts out as zeros.
    Anon(MemMapFlags),
}

/// The page table of one address space.
pub struct PageTable {
    pub table: HashMap<u64, PageEntry>,
    /// Tells this table apart from all others that use the same store.
    pub space: Ghost<nat>,
}

impl View for PageTable {
    type V = Map<u64, PageEntry>;

    open spec fn view(&self) -> Map<u64, PageEntry> {
        self.table@
    }
}

/// A non-empty run of guest pages.
#[derive(Clone, Copy, PartialEq, Eq, Structural, Debug)]
pub struct PageTableAccess {
    pub start_page: u64,
    pub page_count: u64,
}

impl PageTableAccess {
    pub open spec fn wf(self) -> bool {
        &&& self.page_count > 0
        &&& self.start_page + self.page_count <= MAX_PAGE_NUMBER + 1
    }

    pub open spec fn contains(self, page: int) -> bool {
        self.start_page <= page < self.start_page + self.page_count
    }
}

/// What the arguments of a mapping operation name: the pages, nothing at
/// all, or the address at which the request faults.
pub open spec fn pages_of(base: u64, size: u64) -> Result<Option<PageTableAccess>, MemoryFault> {
    if base % 4096 != 0 || size % 4096 != 0 {
        Err(gp(base))
    } else if base + size > 0x1_0000_0000_0000_0000 {
        Err(gp(u64::MAX))
    } else if size == 0 {
        Ok(None)
    } else {
        Ok(Some(PageTableAccess { start_page: base / 4096, page_count: size / 4096 }))
    }
}

impl PageTableAccess {
    /// The pages of `base_vaddr..(base_vaddr + size)`.
    pub fn get_pages(base_vaddr: u64, size: u64) -> (r: Result<Option<Self>, MemoryFault>)
        ensures
            r == pages_of(base_vaddr, size),
            r matches Ok(Some(access)) ==> access.wf(),
    {
        let (start_page, offset) = PageNumber::from_vaddr_with_offset(base_vaddr);
        if offset != 0 {
            return Err(MemoryFault::general_protection(base_vaddr));
        }
        if size % 4096 != 0 {
            return Err(MemoryFault::general_protection(base_vaddr));
        }
        let page_count: u64 = size / 4096;
        let end_addr: u64 = base_vaddr.wrapping_add(size);
        if end_addr < base_vaddr && end_addr != 0 {
            return Err(MemoryFault::general_protection(u64::MAX));
        }
        if page_count == 0 {
            return Ok(None);
        }
        Ok(Some(PageTableAccess { start_page: start_page.number, page_count }))
    }
}

/// The entry of guest page `page` of address space `space`, as a holder.
pub open spec fn me(space: nat, page: u64) -> Holder {
    Holder::Table { space, page }
}

pub open spec fn refers_page(e: PageEntry, b: int) -> bool {
    match e.source {
        PageSource::Shared(page) => page == b,
        PageSource::Private { page, .. } => page == b,
        PageSource::Object { .. } => false,
    }
}

pub open spec fn refers_slot(e: PageEntry, s: int) -> bool {
    e.source matches PageSource::Object { slot, .. } && slot == s
}

/// No entry of a page table holds it but `h`.
pub open spec fn sole_entry(holders: Set<Holder>, h: Holder) -> bool {
    forall|k: Holder| #[trigger] holders.contains(k) && k is Table ==> k == h
}

/// The page that is resident in slot `s` has memory of its own and belongs to
/// the slot alone.
pub open spec fn resident_ok(st: StoreView, s: int) -> bool {
    st.slots[s].page matches Some(b) ==> {
        &&& st.pages[b as int].should_dealloc
        &&& st.pages[b as int].holders@ == Set::empty().insert(Holder::Slot { slot: s as usize })
    }
}

/// An entry holds what it refers to, and a page that may be written in place
/// and is not shared has no other holder.
pub open spec fn entry_ok(st: StoreView, space: nat, n: u64, e: PageEntry) -> bool {
    match e.source {
        PageSource::Shared(b) => {
            &&& b < st.pages.len()
            &&& st.pages[b as int].holders@.contains(me(space, n))
            &&& !st.pages[b as int].holders@.contains(Holder::ZeroPage)
        },
        PageSource::Private { page: b, write_protected } => {
            &&& b < st.pages.len()
            &&& st.pages[b as int].holders@.contains(me(space, n))
            &&& !write_protected ==> st.pages[b as int].holders@ == Set::empty().insert(
                me(space, n),
            )
        },
        PageSource::Object { slot: s, shared } => {
            &&& s < st.slots.len()
            &&& st.slots[s as int].holders@.contains(me(space, n))
            &&& resident_ok(st, s as int)
            &&& !shared ==> sole_entry(st.slots[s as int].holders@, me(space, n))
        },
    }
}

/// The invariant of a page table over the store it maps pages of: every entry
/// is in order, nothing is held for a page that is not mapped, and but for the
/// zero page no two entries hold the same.
pub open spec fn table_wf(st: StoreView, space: nat, table: Map<u64, PageEntry>) -> bool {
    &&& table.dom().finite()
    &&& forall|n: u64| #[trigger]
        table.contains_key(n) ==> n <= MAX_PAGE_NUMBER && entry_ok(st, space, n, table[n])
    &&& forall|b: int, n: u64|
        0 <= b < st.pages.len() && #[trigger] st.pages[b].holders@.contains(me(space, n))
            ==> table.contains_key(n) && refers_page(table[n], b)
    &&& forall|s: int, n: u64|
        0 <= s < st.slots.len() && #[trigger] st.slots[s].holders@.contains(me(space, n))
            ==> table.contains_key(n) && refers_slot(table[n], s)
    &&& pages_apart(st, space)
    &&& slots_apart(st, space)
}

/// No page but the zero page is held by two entries of an address space.
pub open spec fn pages_apart(st: StoreView, space: nat) -> bool {
    forall|b: int, n: u64, m: u64|
        0 <= b < st.pages.len() && #[trigger] st.pages[b].holders@.contains(me(space, n))
            && #[trigger] st.pages[b].holders@.contains(me(space, m)) && n != m
            ==> st.pages[b].holders@.contains(Holder::ZeroPage)
}

/// No slot is held by two entries of an address space.
pub open spec fn slots_apart(st: StoreView, space: nat) -> bool {
    forall|s: int, n: u64, m: u64|
        0 <= s < st.slots.len() && #[trigger] st.slots[s].holders@.contains(me(space, n))
            && #[trigger] st.slots[s].holders@.contains(me(space, m)) ==> n == m
}

/// The resolved page of an entry; a page of an object that was not faulted
/// in yet has none. A write-protected page is copy-on-write and grants no
/// `WRITE`.
pub open spec fn as_page(st: StoreView, e: PageEntry) -> Option<Page> {
    match e.source {
        PageSource::Shared(b) => Some(
            Page {
                ptr: TaggedPagePtr {
                    page: st.pages[b as int].allocated_page,
                    flags: MemFlags::spec_from_prot(e.protections),
                },
                backing: b,
            },
        ),
        PageSource::Private { page: b, write_protected } => Some(
            Page {
                ptr: TaggedPagePtr {
                    page: st.pages[b as int].allocated_page,
                    flags: if write_protected {
                        MemFlags {
                            write: false,
                            cow: true,
                            ..MemFlags::spec_from_prot(e.protections)
                        }
                    } else {
                        MemFlags::spec_from_prot(e.protections)
                    },
                },
                backing: b,
            },
        ),
        PageSource::Object { slot, shared } => match st.slots[slot as int].page {
            Some(b) => Some(
                Page {
                    ptr: TaggedPagePtr {
                        page: st.pages[b as int].allocated_page,
                        flags: MemFlags {
                            dma_dev: shared,
                            ..MemFlags::spec_from_prot(e.protections)
                        },
                    },
                    backing: b,
                },
            ),
            None => None,
        },
    }
}

/// The resolved page with number `n`, if there is one.
pub open spec fn resolve(st: StoreView, table: Map<u64, PageEntry>, n: int) -> Option<Page> {
    if 0 <= n <= u64::MAX && table.contains_key(n as u64) {
        as_page(st, table[n as u64])
    } else {
        None
    }
}

/// The bytes of page `n`, if it resolves.
pub open spec fn contents(st: StoreView, table: Map<u64, PageEntry>, n: int) -> Option<Seq<u8>> {
    match resolve(st, table, n) {
        Some(page) => Some(st.host[page.ptr.page.index as int].bytes),
        None => None,
    }
}

/// What looking up page `n` gives.
pub open spec fn lookup(st: StoreView, table: Map<u64, PageEntry>, n: int) -> Result<
    Page,
    MemoryFault,
> {
    match resolve(st, table, n) {
        Some(page) => Ok(page),
        None => Err(gp((n * 4096) as u64)),
    }
}

/// Whether `h` is an entry of another address space.
pub open spec fn foreign(h: Holder, ours: Set<nat>) -> bool {
    h matches Holder::Table { space: other, .. } && !ours.contains(other)
}

pub open spec fn only_foreign(holders: Set<Holder>, ours: Set<nat>) -> bool {
    forall|h: Holder| holders.contains(h) ==> foreign(h, ours)
}

/// No entry of our address spaces is among the holders.
pub open spec fn apart(holders: Set<Holder>, ours: Set<nat>) -> bool {
    forall|h: Holder| #[trigger] holders.contains(h) && h is Table ==> foreign(h, ours)
}

/// An entry of another address space is among the holders.
pub open spec fn held_elsewhere(holders: Set<Holder>, ours: Set<nat>) -> bool {
    exists|h: Holder| #[trigger] holders.contains(h) && foreign(h, ours)
}

/// One address space alone.
pub open spec fn one(space: nat) -> Set<nat> {
    Set::empty().insert(space)
}

pub open spec fn page_frame(a: StoreView, b: StoreView, ours: Set<nat>, i: int) -> bool {
    let p = a.pages[i];
    let q = b.pages[i];
    &&& q.allocated_page == p.allocated_page
    &&& q.should_dealloc == p.should_dealloc
    &&& q.dirty_page_flags == p.dirty_page_flags
    &&& p.refs == 0 ==> q.refs == 0
    &&& q.refs > 0 ==> b.bytes(i) == a.bytes(i)
    &&& forall|h: Holder|
        foreign(h, ours) ==> #[trigger] q.holders@.contains(h) == p.holders@.contains(h)
    &&& q.holders@.contains(Holder::ZeroPage) == p.holders@.contains(Holder::ZeroPage)
    &&& only_foreign(p.holders@, ours) ==> q.holders@ == p.holders@
}

pub open spec fn slot_frame(a: StoreView, b: StoreView, ours: Set<nat>, s: int) -> bool {
    let p = a.slots[s];
    let q = b.slots[s];
    &&& q.object == p.object
    &&& q.page_offset == p.page_offset
    &&& p.refs == 0 ==> q.refs == 0
    &&& q.refs > 0 ==> q.page == p.page
    &&& forall|h: Holder|
        foreign(h, ours) || h == Holder::Worker ==> #[trigger] q.holders@.contains(h)
            == p.holders@.contains(h)
    &&& apart(p.holders@, ours) ==> q.holders@ == p.holders@
    &&& held_elsewhere(p.holders@, ours) && resident_ok(a, s) ==> resident_ok(b, s)
}

/// A change of the store on behalf of the address spaces `ours` alone: what
/// other address spaces hold stays, with its contents.
pub open spec fn frame(a: StoreView, b: StoreView, ours: Set<nat>) -> bool {
    &&& a.host.len() <= b.host.len()
    &&& a.pages.len() <= b.pages.len()
    &&& a.slots.len() <= b.slots.len()
    &&& forall|h: int|
        #![trigger b.host[h]]
        0 <= h < a.host.len() ==> b.host[h].lent == a.host[h].lent && (a.host[h].lent ==> b.host[h]
            == a.host[h])
    &&& forall|i: int|
        #![trigger b.pages[i]]
        0 <= i < a.pages.len() ==> page_frame(a, b, ours, i)
    &&& forall|i: int, h: Holder|
        a.pages.len() <= i < b.pages.len() && #[trigger] b.pages[i].holders@.contains(h)
            ==> !foreign(h, ours)
    &&& forall|s: int|
        #![trigger b.slots[s]]
        0 <= s < a.slots.len() ==> slot_frame(a, b, ours, s)
    &&& forall|s: int, h: Holder|
        a.slots.len() <= s < b.slots.len() && #[trigger] b.slots[s].holders@.contains(h)
            ==> !foreign(h, ours)
    &&& a.zero_page is Some ==> b.zero_page == a.zero_page
}

/// Whoever is held is counted.
proof fn lemma_held(refs: u64, holders: Set<Holder>, h: Holder)
    requires
        counts(refs, holders),
        holders.contains(h),
    ensures
        refs > 0,
{
    assert(holders.remove(h).len() + 1 == holders.len());
}

/// An operation on some address spaces leaves every other address space as it
/// was: its table stays valid, every page of it resolves as before and has
/// the same contents.
pub proof fn law_other_spaces_unaffected(
    a: StoreView,
    b: StoreView,
    ours: Set<nat>,
    other: nat,
    table: Map<u64, PageEntry>,
)
    requires
        a.wf(),
        b.wf(),
        frame(a, b, ours),
        !ours.contains(other),
        table_wf(a, other, table),
    ensures
        table_wf(b, other, table),
        forall|n: int| #[trigger] resolve(b, table, n) == resolve(a, table, n),
        forall|n: int| #[trigger] contents(b, table, n) == contents(a, table, n),
{
    assert forall|n: u64| #[trigger] table.contains_key(n) implies n <= MAX_PAGE_NUMBER && entry_ok(
        b,
        other,
        n,
        table[n],
    ) && as_page(b, table[n]) == as_page(a, table[n]) && (as_page(a, table[n]) matches Some(
        page,
    ) ==> b.bytes(page.backing as int) == a.bytes(page.backing as int)) by {
        let e = table[n];
        let h = me(other, n);
        assert(foreign(h, ours));
        assert(entry_ok(a, other, n, e));
        match e.source {
            PageSource::Shared(p) => {
                assert(page_frame(a, b, ours, p as int));
                assert(b.pages[p as int].holders@.contains(h));
                lemma_held(b.pages[p as int].refs, b.pages[p as int].holders@, h);
            },
            PageSource::Private { page: p, write_protected } => {
                assert(page_frame(a, b, ours, p as int));
                assert(b.pages[p as int].holders@.contains(h));
                lemma_held(b.pages[p as int].refs, b.pages[p as int].holders@, h);
                if !write_protected {
                    assert(only_foreign(a.pages[p as int].holders@, ours));
                }
            },
            PageSource::Object { slot: s, .. } => {
                assert(slot_frame(a, b, ours, s as int));
                assert(b.slots[s as int].holders@.contains(h));
                lemma_held(b.slots[s as int].refs, b.slots[s as int].holders@, h);
                assert(a.slot_ok(s as int));
                assert(b.slot_ok(s as int));
                if let Some(p) = a.slots[s as int].page {
                    let k = Holder::Slot { slot: s };
                    assert(page_frame(a, b, ours, p as int));
                    lemma_held(b.pages[p as int].refs, b.pages[p as int].holders@, k);
                }
            },
        }
    }
    assert forall|p: int, n: u64|
        0 <= p < b.pages.len() && #[trigger] b.pages[p].holders@.contains(
            me(other, n),
        ) implies table.contains_key(n) && refers_page(table[n], p) by {
        assert(foreign(me(other, n), ours));
        if p < a.pages.len() {
            assert(page_frame(a, b, ours, p));
            assert(a.pages[p].holders@.contains(me(other, n)));
        }
    }
    assert forall|s: int, n: u64|
        0 <= s < b.slots.len() && #[trigger] b.slots[s].holders@.contains(
            me(other, n),
        ) implies table.contains_key(n) && refers_slot(table[n], s) by {
        assert(foreign(me(other, n), ours));
        if s < a.slots.len() {
            assert(slot_frame(a, b, ours, s));
            assert(a.slots[s].holders@.contains(me(other, n)));
        }
    }
    assert forall|n: int| #[trigger] resolve(b, table, n) == resolve(a, table, n) by {}
    assert forall|n: int| #[trigger] contents(b, table, n) == contents(a, table, n) by {
        assert(resolve(b, table, n) == resolve(a, table, n));
    }
}

pub proof fn lemma_frame_refl(a: StoreView, ours: Set<nat>)
    ensures
        frame(a, a, ours),
{
}

pub proof fn lemma_frame_trans(a: StoreView, b: StoreView, c: StoreView, ours: Set<nat>)
    requires
        frame(a, b, ours),
        frame(b, c, ours),
    ensures
        frame(a, c, ours),
{
    assert forall|i: int| #![trigger c.pages[i]] 0 <= i < a.pages.len() implies page_frame(
        a,
        c,
        ours,
        i,
    ) by {
        assert(page_frame(a, b, ours, i));
        assert(page_frame(b, c, ours, i));
    }
    assert forall|s: int| #![trigger c.slots[s]] 0 <= s < a.slots.len() implies slot_frame(
        a,
        c,
        ours,
        s,
    ) by {
        assert(slot_frame(a, b, ours, s));
        assert(slot_frame(b, c, ours, s));
        if held_elsewhere(a.slots[s].holders@, ours) {
            let h = choose|h: Holder| #[trigger]
                a.slots[s].holders@.contains(h) && foreign(h, ours);
            assert(b.slots[s].holders@.contains(h));
            assert(held_elsewhere(b.slots[s].holders@, ours));
        }
    }
    assert forall|i: int, h: Holder|
        a.pages.len() <= i < c.pages.len() && #[trigger] c.pages[i].holders@.contains(
            h,
        ) implies !foreign(h, ours) by {
        if i < b.pages.len() {
            assert(page_frame(b, c, ours, i));
            if foreign(h, ours) {
                assert(b.pages[i].holders@.contains(h));
            }
        }
    }
    assert forall|s: int, h: Holder|
        a.slots.len() <= s < c.slots.len() && #[trigger] c.slots[s].holders@.contains(
            h,
        ) implies !foreign(h, ours) by {
        if s < b.slots.len() {
            assert(slot_frame(b, c, ours, s));
            if foreign(h, ours) {
                assert(b.slots[s].holders@.contains(h));
            }
        }
    }
    assert forall|h: int| #![trigger c.host[h]] 0 <= h < a.host.len() implies c.host[h].lent
        == a.host[h].lent && (a.host[h].lent ==> c.host[h] == a.host[h]) by {
        assert(b.host[h].lent == a.host[h].lent);
    }
}

/// An entry that stays resolves as before and has the same contents.
pub proof fn lemma_entry_stable(a: StoreView, b: StoreView, by: Set<nat>, space: nat, n: u64, e: PageEntry)
    requires
        a.wf(),
        b.wf(),
        frame(a, b, by),
        entry_ok(a, space, n, e),
        entry_ok(b, space, n, e),
    ensures
        as_page(b, e) == as_page(a, e),
        as_page(a, e) matches Some(page) ==> b.host[page.ptr.page.index as int].bytes
            == a.host[page.ptr.page.index as int].bytes,
{
    let h = me(space, n);
    match e.source {
        PageSource::Shared(p) => {
            assert(page_frame(a, b, by, p as int));
            lemma_held(b.pages[p as int].refs, b.pages[p as int].holders@, h);
        },
        PageSource::Private { page: p, .. } => {
            assert(page_frame(a, b, by, p as int));
            lemma_held(b.pages[p as int].refs, b.pages[p as int].holders@, h);
        },
        PageSource::Object { slot: s, .. } => {
            assert(slot_frame(a, b, by, s as int));
            lemma_held(b.slots[s as int].refs, b.slots[s as int].holders@, h);
            assert(a.slot_ok(s as int));
            assert(b.slot_ok(s as int));
            if let Some(p) = a.slots[s as int].page {
                assert(page_frame(a, b, by, p as int));
                lemma_held(
                    b.pages[p as int].refs,
                    b.pages[p as int].holders@,
                    Holder::Slot { slot: s },
                );
            }
        },
    }
}

/// But for the zero page, everything is held by those that held it.
pub open spec fn holders_kept(a: StoreView, b: StoreView) -> bool {
    &&& a.pages.len() <= b.pages.len()
    &&& a.slots.len() <= b.slots.len()
    &&& forall|i: int|
        #![trigger b.pages[i]]
        0 <= i < a.pages.len() && !a.pages[i].holders@.contains(Holder::ZeroPage)
            ==> b.pages[i].holders@ == a.pages[i].holders@
    &&& forall|s: int|
        #![trigger b.slots[s]]
        0 <= s < a.slots.len() ==> b.slots[s].holders@ == a.slots[s].holders@
}

/// What the entry of page `n`, the one at place `index` of a new mapping, is.
/// But for the zero page, nobody else holds what it shows.
pub open spec fn mapped_as(
    st: StoreView,
    space: nat,
    n: u64,
    e: PageEntry,
    index: int,
    prot: MemProt,
    region: MapRegion,
) -> bool {
    &&& e.protections == prot
    &&& match region {
        MapRegion::Object { shared, object } => {
            &&& e.source matches PageSource::Object { slot, shared: kept }
            &&& kept == shared
            &&& st.slots[slot as int].object == object
            &&& st.slots[slot as int].page_offset == index
            &&& st.slots[slot as int].page is None
            &&& st.slots[slot as int].holders@ == Set::empty().insert(me(space, n))
        },
        MapRegion::Extern { flags, base_ptr } => {
            &&& extern_source(e.source, flags)
            &&& st.pages[source_page(e.source)].holders@ == Set::empty().insert(me(space, n))
            &&& extern_memory(st, source_page(e.source), base_ptr.index + index)
        },
        MapRegion::Anon(flags) => match flags {
            MemMapFlags::Private => {
                &&& e.source matches PageSource::Private { page: b, write_protected }
                &&& !write_protected
                &&& fresh_memory(st, b as int)
                &&& st.pages[b as int].holders@ == Set::empty().insert(me(space, n))
            },
            MemMapFlags::Shared => {
                &&& e.source matches PageSource::Shared(b)
                &&& fresh_memory(st, b as int)
                &&& st.pages[b as int].holders@ == Set::empty().insert(me(space, n))
            },
            MemMapFlags::Cow => {
                &&& e.source matches PageSource::Private { page: b, write_protected }
                &&& write_protected
                &&& st.zero_page == Some(b)
                &&& st.bytes(b as int) == zero_bytes()
            },
        },
    }
}

pub open spec fn extern_source(source: PageSource, flags: MemMapFlags) -> bool {
    match flags {
        MemMapFlags::Private => source matches PageSource::Private { write_protected, .. }
            && !write_protected,
        MemMapFlags::Cow => source matches PageSource::Private { write_protected, .. }
            && write_protected,
        MemMapFlags::Shared => source is Shared,
    }
}

pub open spec fn source_page(source: PageSource) -> int {
    match source {
        PageSource::Shared(b) => b as int,
        PageSource::Private { page: b, .. } => b as int,
        PageSource::Object { .. } => -1,
    }
}

/// Page `b` is a clean view of host page `h`, which belongs to the embedder.
pub open spec fn extern_memory(st: StoreView, b: int, h: int) -> bool {
    let page = st.pages[b];
    &&& page.allocated_page.index == h
    &&& !page.should_dealloc
    &&& page.dirty_page_flags == 0
}

/// Page `b` has clean memory of its own that reads as zeros.
pub open spec fn fresh_memory(st: StoreView, b: int) -> bool {
    let page = st.pages[b];
    &&& page.should_dealloc
    &&& page.dirty_page_flags == 0
    &&& st.bytes(b) == zero_bytes()
}

/// The host memory that a mapping of the embedder's memory names exists.
pub open spec fn region_ok(st: StoreView, region: MapRegion, count: int) -> bool {
    region matches MapRegion::Extern { base_ptr, .. } ==> {
        &&& base_ptr.index + count <= st.host.len()
        &&& forall|h: int|
            #![trigger st.host[h]]
            base_ptr.index <= h < base_ptr.index + count ==> st.host[h].lent
    }
}

proof fn lemma_mapped_stable(
    a: StoreView,
    b: StoreView,
    space: nat,
    n: u64,
    e: PageEntry,
    index: int,
    prot: MemProt,
    region: MapRegion,
)
    requires
        a.wf(),
        b.wf(),
        frame(a, b, one(space)),
        entry_ok(a, space, n, e),
        entry_ok(b, space, n, e),
        holders_kept(a, b),
        mapped_as(a, space, n, e, index, prot, region),
    ensures
        mapped_as(b, space, n, e, index, prot, region),
{
    lemma_entry_stable(a, b, one(space), space, n, e);
    match e.source {
        PageSource::Shared(p) => {
            assert(page_frame(a, b, one(space), p as int));
        },
        PageSource::Private { page: p, .. } => {
            assert(page_frame(a, b, one(space), p as int));
        },
        PageSource::Object { slot, .. } => {
            assert(slot_frame(a, b, one(space), slot as int));
            lemma_held(b.slots[slot as int].refs, b.slots[slot as int].holders@, me(space, n));
        },
    }
}

impl PageTable {
    /// The invariant of the table over its store.
    pub open spec fn wf(self, st: StoreView) -> bool {
        table_wf(st, self.space@, self@)
    }

    /// An empty table for address space `space`.
    pub(crate) fn new(space: Ghost<nat>) -> (r: Self)
        ensures
            r@ == Map::<u64, PageEntry>::empty(),
            r.space == space,
    {
        PageTable { table: HashMap::new(), space }
    }

    /// Resolves page `page_num`; an unmapped page, and an object page that
    /// was not faulted in, fault at the base of the page.
    pub fn get_page(&self, store: &PageStore, page_num: PageNumber) -> (r: Result<Page, MemoryFault>)
        requires
            store@.wf(),
            self.wf(store@),
            page_num.wf(),
        ensures
            r == lookup(store@, self@, page_num.number as int),
    {
        match self.table.get(&page_num.number) {
            Some(entry) => match entry.as_page(store, self.space, Ghost(page_num.number)) {
                Some(page) => Ok(page),
                None => Err(MemoryFault::general_protection(page_num.vaddr_base())),
            },
            None => Err(MemoryFault::general_protection(page_num.vaddr_base())),
        }
    }
}

impl PageEntry {
    /// The resolved page of the entry.
    pub(crate) fn as_page(&self, store: &PageStore, space: Ghost<nat>, n: Ghost<u64>) -> (r: Option<
        Page,
    >)
        requires
            store@.wf(),
            entry_ok(store@, space@, n@, *self),
        ensures
            r == as_page(store@, *self),
    {
        let (backing, flags): (usize, MemFlags) = match self.source {
            PageSource::Shared(page) => (page, MemFlags::from_prot(self.protections)),
            PageSource::Private { page, write_protected } => {
                let mut flags = MemFlags::from_prot(self.protections);
                if write_protected {
                    flags.write = false;
                    flags.cow = true;
                }
                (page, flags)
            },
            PageSource::Object { slot, shared } => {
                assert(store@.slot_ok(slot as int));
                match store.slots[slot].page {
                    Some(page) => {
                        let mut flags = MemFlags::from_prot(self.protections);
                        flags.dma_dev = shared;
                        (page, flags)
                    },
                    None => {
                        return None;
                    },
                }
            },
        };
        Some(
            Page {
                ptr: TaggedPagePtr { page: store.pages[backing].allocated_page, flags },
                backing,
            },
        )
    }

    /// Sets the protection of the entry.
    pub fn memprot(&mut self, new_prot: MemProt)
        ensures
            *final(self) == (PageEntry { protections: new_prot, ..*old(self) }),
    {
        self.protections = new_prot;
    }

    /// The protection of the entry.
    pub fn prot(&self) -> (r: MemProt)
        ensures
            r == self.protections,
    {
        self.protections
    }
}

/// A table stays valid when a page that was not mapped gets an entry and
/// only that entry gets hold of pages or slots.
proof fn lemma_insert(
    a: StoreView,
    b: StoreView,
    space: nat,
    table: Map<u64, PageEntry>,
    n: u64,
    e: PageEntry,
)
    requires
        a.wf(),
        table_wf(a, space, table),
        !table.contains_key(n),
        n <= MAX_PAGE_NUMBER,
        entry_ok(b, space, n, e),
        a.pages.len() <= b.pages.len(),
        a.slots.len() <= b.slots.len(),
        forall|i: int|
            #![trigger b.pages[i]]
            0 <= i < a.pages.len() ==> b.pages[i].should_dealloc == a.pages[i].should_dealloc,
        forall|i: int|
            #![trigger b.pages[i]]
            0 <= i < a.pages.len() ==> {
                ||| b.pages[i].holders@ == a.pages[i].holders@
                ||| a.pages[i].holders@.contains(Holder::ZeroPage) && refers_page(e, i)
                    && b.pages[i].holders@ == a.pages[i].holders@.insert(me(space, n))
            },
        forall|i: int, m: u64|
            a.pages.len() <= i < b.pages.len() && #[trigger] b.pages[i].holders@.contains(
                me(space, m),
            ) ==> m == n && refers_page(e, i),
        forall|s: int|
            #![trigger b.slots[s]]
            0 <= s < a.slots.len() ==> b.slots[s].holders@ == a.slots[s].holders@
                && b.slots[s].page == a.slots[s].page,
        forall|s: int, m: u64|
            a.slots.len() <= s < b.slots.len() && #[trigger] b.slots[s].holders@.contains(
                me(space, m),
            ) ==> m == n && refers_slot(e, s),
    ensures
        table_wf(b, space, table.insert(n, e)),
{
    let new_table = table.insert(n, e);
    assert forall|m: u64| #[trigger] new_table.contains_key(m) implies m <= MAX_PAGE_NUMBER
        && entry_ok(b, space, m, new_table[m]) by {
        if m != n {
            assert(table.contains_key(m));
            assert(entry_ok(a, space, m, table[m]));
            if let PageSource::Object { slot, .. } = table[m].source {
                assert(a.slot_ok(slot as int));
            }
        }
    }
    assert forall|i: int, m: u64|
        0 <= i < b.pages.len() && #[trigger] b.pages[i].holders@.contains(
            me(space, m),
        ) implies new_table.contains_key(m) && refers_page(new_table[m], i) by {
        if i < a.pages.len() && m != n {
            assert(a.pages[i].holders@.contains(me(space, m)));
        }
        if i < a.pages.len() && m == n && b.pages[i].holders@ == a.pages[i].holders@ {
            assert(a.pages[i].holders@.contains(me(space, m)));
        }
    }
    assert forall|s: int, m: u64|
        0 <= s < b.slots.len() && #[trigger] b.slots[s].holders@.contains(
            me(space, m),
        ) implies new_table.contains_key(m) && refers_slot(new_table[m], s) by {
        if s < a.slots.len() {
            assert(a.slots[s].holders@.contains(me(space, m)));
        }
    }
    assert forall|i: int, m: u64, k: u64|
        0 <= i < b.pages.len() && #[trigger] b.pages[i].holders@.contains(me(space, m))
            && #[trigger] b.pages[i].holders@.contains(me(space, k)) && m
            != k implies b.pages[i].holders@.contains(Holder::ZeroPage) by {
        if i < a.pages.len() && b.pages[i].holders@ == a.pages[i].holders@ {
            assert(a.pages[i].holders@.contains(me(space, m)));
            assert(a.pages[i].holders@.contains(me(space, k)));
        }
    }
    assert forall|i: int, m: u64, k: u64|
        0 <= i < b.slots.len() && #[trigger] b.slots[i].holders@.contains(me(space, m))
            && #[trigger] b.slots[i].holders@.contains(me(space, k)) implies m == k by {
        if i < a.slots.len() {
            assert(a.slots[i].holders@.contains(me(space, m)));
            assert(a.slots[i].holders@.contains(me(space, k)));
        }
    }
}

impl PageEntry {
    /// The entry of page `n`, the one at place `index` of a new mapping.
    pub(crate) fn for_region(
        store: &mut PageStore,
        space: Ghost<nat>,
        table: Ghost<Map<u64, PageEntry>>,
        n: Ghost<u64>,
        index: u64,
        mem_prot: MemProt,
        region: MapRegion,
    ) -> (e: Self)
        requires
            old(store)@.wf(),
            table_wf(old(store)@, space@, table@),
            !table@.contains_key(n@),
            n@ <= MAX_PAGE_NUMBER,
            index <= MAX_PAGE_NUMBER,
            region_ok(old(store)@, region, index + 1),
        ensures
            final(store)@.wf(),
            frame(old(store)@, final(store)@, one(space@)),
            table_wf(final(store)@, space@, table@.insert(n@, e)),
            holders_kept(old(store)@, final(store)@),
            mapped_as(final(store)@, space@, n@, e, index as int, mem_prot, region),
    {
        let ghost h = me(space@, n@);
        let ghost a = store@;
        proof {
            assert forall|i: int| 0 <= i < a.pages.len() implies !(#[trigger] a.pages[i]).holders@.contains(
                h,
            ) by {
                if a.pages[i].holders@.contains(me(space@, n@)) {
                    assert(table@.contains_key(n@));
                }
            }
        }
        let source: PageSource = match region {
            MapRegion::Object { shared, object } => {
                let slot: usize = store.new_slot(object, index, Ghost(h));
                PageSource::Object { slot, shared }
            },
            MapRegion::Extern { flags, base_ptr } => {
                let ptr = PagePointer { index: base_ptr.index + index as usize };
                let page: usize = store.extern_page(ptr, Ghost(h));
                match flags {
                    MemMapFlags::Private => PageSource::Private { page, write_protected: false },
                    MemMapFlags::Cow => PageSource::Private { page, write_protected: true },
                    MemMapFlags::Shared => PageSource::Shared(page),
                }
            },
            MapRegion::Anon(flags) => match flags {
                MemMapFlags::Private => {
                    let page: usize = store.alloc_zeroed(Ghost(h));
                    PageSource::Private { page, write_protected: false }
                },
                MemMapFlags::Shared => {
                    let page: usize = store.alloc_zeroed(Ghost(h));
                    PageSource::Shared(page)
                },
                MemMapFlags::Cow => {
                    let page: usize = store.zero_page();
                    proof {
                        lemma_held(
                            store@.pages[page as int].refs,
                            store@.pages[page as int].holders@,
                            Holder::ZeroPage,
                        );
                    }
                    store.hold_page(page, Ghost(h));
                    PageSource::Private { page, write_protected: true }
                },
            },
        };
        let e = PageEntry { source, protections: mem_prot };
        proof {
            let b = store@;
            assert forall|i: int| #![trigger b.pages[i]] 0 <= i < a.pages.len() implies page_frame(
                a,
                b,
                one(space@),
                i,
            ) by {
                assert(a.page_ok(i));
            }
            lemma_insert(a, b, space@, table@, n@, e);
        }
        e
    }
}

/// The first of the pages from `from` up to `to` for which `table` has, or
/// has not, an entry, and no page before it does.
pub open spec fn first_page(
    table: Map<u64, PageEntry>,
    access: PageTableAccess,
    mapped: bool,
    page: int,
) -> bool {
    &&& access.contains(page)
    &&& table.contains_key(page as u64) == mapped
    &&& forall|m: int|
        access.start_page <= m < page ==> #[trigger] table.contains_key(m as u64) != mapped
}

/// What mapping `access` did to a table.
pub open spec fn mapped_pages(
    a: StoreView,
    b: StoreView,
    space: nat,
    old_table: Map<u64, PageEntry>,
    table: Map<u64, PageEntry>,
    access: PageTableAccess,
    prot: MemProt,
    region: MapRegion,
) -> bool {
    &&& frame(a, b, one(space))
    &&& holders_kept(a, b)
    &&& forall|n: u64|
        !access.contains(n as int) ==> {
            &&& #[trigger] table.contains_key(n) == old_table.contains_key(n)
            &&& table.contains_key(n) ==> table[n] == old_table[n]
        }
    &&& forall|n: u64|
        access.contains(n as int) ==> #[trigger] table.contains_key(n) && mapped_as(
            b,
            space,
            n,
            table[n],
            n - access.start_page,
            prot,
            region,
        )
}

impl PageTable {
    /// Maps the pages of `pages`, none of which may be mapped yet: the first
    /// one that is faults at its base, and nothing is mapped.
    pub fn map(
        &mut self,
        store: &mut PageStore,
        pages: PageTableAccess,
        mem_prot: MemProt,
        region: MapRegion,
    ) -> (r: Result<(), MemoryFault>)
        requires
            old(store)@.wf(),
            old(self).wf(old(store)@),
            pages.wf(),
            region_ok(old(store)@, region, pages.page_count as int),
        ensures
            final(store)@.wf(),
            final(self).wf(final(store)@),
            final(self).space == old(self).space,
            match r {
                Ok(()) => {
                    &&& forall|m: int| pages.contains(m) ==> !#[trigger] old(self)@.contains_key(m as u64)
                    &&& mapped_pages(
                        old(store)@,
                        final(store)@,
                        old(self).space@,
                        old(self)@,
                        final(self)@,
                        pages,
                        mem_prot,
                        region,
                    )
                },
                Err(fault) => {
                    &&& final(store)@ == old(store)@
                    &&& final(self)@ == old(self)@
                    &&& exists|page: int|
                        first_page(old(self)@, pages, true, page) && fault == gp(
                            (page * 4096) as u64,
                        )
                },
            },
    {
        let end: u64 = pages.start_page + pages.page_count;
        let mut page: u64 = pages.start_page;
        while page < end
            invariant
                pages.wf(),
                end == pages.start_page + pages.page_count,
                pages.start_page <= page <= end,
                store@.wf(),
                self.wf(store@),
                forall|m: int|
                    pages.start_page <= m < page ==> !#[trigger] self@.contains_key(m as u64),
            decreases end - page,
        {
            if self.table.contains_key(&page) {
                assert(first_page(self@, pages, true, page as int));
                return Err(MemoryFault::general_protection(page * 4096));
            }
            page += 1;
        }
        let ghost a = store@;
        let ghost space = self.space@;
        let ghost before = self@;
        proof {
            lemma_frame_refl(a, one(space));
        }
        let mut page: u64 = pages.start_page;
        while page < end
            invariant
                pages.wf(),
                end == pages.start_page + pages.page_count,
                pages.start_page <= page <= end,
                space == self.space@,
                a.wf(),
                store@.wf(),
                self.wf(store@),
                frame(a, store@, one(space)),
                holders_kept(a, store@),
                region_ok(a, region, pages.page_count as int),
                forall|m: int| pages.contains(m) ==> !#[trigger] before.contains_key(m as u64),
                forall|n: u64|
                    !(pages.start_page <= n < page) ==> {
                        &&& #[trigger] self@.contains_key(n) == before.contains_key(n)
                        &&& self@.contains_key(n) ==> self@[n] == before[n]
                    },
                forall|n: u64|
                    pages.start_page <= n < page ==> #[trigger] self@.contains_key(n) && mapped_as(
                        store@,
                        space,
                        n,
                        self@[n],
                        n - pages.start_page,
                        mem_prot,
                        region,
                    ),
            decreases end - page,
        {
            let index: u64 = page - pages.start_page;
            let ghost mid = store@;
            let ghost mid_table = self@;
            assert(!before.contains_key((page as int) as u64));
            assert(region_ok(mid, region, index + 1));
            let entry = PageEntry::for_region(
                store,
                self.space,
                Ghost(self@),
                Ghost(page),
                index,
                mem_prot,
                region,
            );
            self.table.insert(page, entry);
            proof {
                lemma_frame_trans(a, mid, store@, one(space));
                assert forall|n: u64| pages.start_page <= n < page implies mapped_as(
                    store@,
                    space,
                    n,
                    #[trigger] self@[n],
                    n - pages.start_page,
                    mem_prot,
                    region,
                ) by {
                    assert(mid_table.contains_key(n));
                    assert(self@.contains_key(n));
                    lemma_mapped_stable(
                        mid,
                        store@,
                        space,
                        n,
                        mid_table[n],
                        n - pages.start_page,
                        mem_prot,
                        region,
                    );
                }
            }
            page += 1;
        }
        Ok(())
    }

    /// Sets the protection of the pages of `pages`, all of which have to be
    /// mapped: the first one that is not faults at its base, and nothing
    /// changes. Tells whether a protection changed.
    pub fn protect(&mut self, store: &PageStore, pages: PageTableAccess, protections: MemProt) -> (r:
        Result<bool, MemoryFault>)
        requires
            store@.wf(),
            old(self).wf(store@),
            pages.wf(),
        ensures
            final(self).wf(store@),
            final(self).space == old(self).space,
            match r {
                Ok(modified) => {
                    &&& forall|m: int| pages.contains(m) ==> #[trigger] old(self)@.contains_key(m as u64)
                    &&& modified == exists|m: u64|
                        pages.contains(m as int) && #[trigger] old(self)@[m].protections
                            != protections
                    &&& final(self)@ == old(self)@.map_entries(
                        |n: u64, e: PageEntry|
                            if pages.contains(n as int) {
                                PageEntry { protections, ..e }
                            } else {
                                e
                            },
                    )
                },
                Err(fault) => {
                    &&& final(self)@ == old(self)@
                    &&& exists|page: int|
                        first_page(old(self)@, pages, false, page) && fault == gp(
                            (page * 4096) as u64,
                        )
                },
            },
    {
        let end: u64 = pages.start_page + pages.page_count;
        let mut page: u64 = pages.start_page;
        while page < end
            invariant
                pages.wf(),
                end == pages.start_page + pages.page_count,
                pages.start_page <= page <= end,
                self.wf(store@),
                forall|m: int|
                    pages.start_page <= m < page ==> #[trigger] self@.contains_key(m as u64),
            decreases end - page,
        {
            if !self.table.contains_key(&page) {
                assert(first_page(self@, pages, false, page as int));
                return Err(MemoryFault::general_protection(page * 4096));
            }
            page += 1;
        }
        let ghost before = self@;
        let mut modified: bool = false;
        let mut page: u64 = pages.start_page;
        while page < end
            invariant
                pages.wf(),
                end == pages.start_page + pages.page_count,
                pages.start_page <= page <= end,
                self.space == old(self).space,
                self@.dom() == before.dom(),
                forall|m: int| pages.contains(m) ==> #[trigger] before.contains_key(m as u64),
                forall|n: u64| #[trigger]
                    before.contains_key(n) ==> self@[n] == (if pages.start_page <= n < page {
                        PageEntry { protections, ..before[n] }
                    } else {
                        before[n]
                    }),
                modified == exists|m: u64|
                    pages.start_page <= m < page && #[trigger] before[m].protections != protections,
            decreases end - page,
        {
            assert(before.contains_key((page as int) as u64));
            if let Some(entry) = self.table.get(&page) {
                let mut entry: PageEntry = *entry;
                if entry.prot() != protections {
                    modified = true;
                    assert(before[page].protections != protections);
                }
                entry.memprot(protections);
                self.table.insert(page, entry);
            }
            assert(self@.dom() =~= before.dom());
            page += 1;
        }
        proof {
            assert(self@ =~= before.map_entries(
                |n: u64, e: PageEntry|
                    if pages.contains(n as int) {
                        PageEntry { protections, ..e }
                    } else {
                        e
                    },
            ));
            assert forall|n: u64| #[trigger] self@.contains_key(n) implies entry_ok(
                store@,
                self.space@,
                n,
                self@[n],
            ) by {
                assert(before.contains_key(n));
                assert(entry_ok(store@, self.space@, n, before[n]));
            }
        }
        Ok(modified)
    }
}

/// The store once the entry of page `n` let go of what it holds.
pub open spec fn entry_release(st: StoreView, space: nat, n: u64, e: PageEntry) -> StoreView {
    match e.source {
        PageSource::Shared(b) => st.release_page(b as int, me(space, n)),
        PageSource::Private { page: b, .. } => st.release_page(b as int, me(space, n)),
        PageSource::Object { slot: s, .. } => st.release_slot(s as int, me(space, n)),
    }
}

/// The invalidations that come with dropping an entry.
pub open spec fn entry_release_log(st: StoreView, e: PageEntry) -> Seq<PagePointer> {
    match e.source {
        PageSource::Shared(b) => st.release_page_log(b as int),
        PageSource::Private { page: b, .. } => st.release_page_log(b as int),
        PageSource::Object { slot: s, .. } => st.release_slot_log(s as int),
    }
}

/// The store once the entries of the first `k` pages from `start` on are
/// dropped, one after the other.
pub open spec fn unmap_store(
    st: StoreView,
    space: nat,
    table: Map<u64, PageEntry>,
    start: u64,
    k: nat,
) -> StoreView
    decreases k,
{
    if k == 0 {
        st
    } else {
        let rest = unmap_store(st, space, table, start, (k - 1) as nat);
        let n = (start + k - 1) as u64;
        if table.contains_key(n) {
            entry_release(rest, space, n, table[n])
        } else {
            rest
        }
    }
}

/// The invalidations that come with dropping the entries of the first `k`
/// pages from `start` on.
pub open spec fn unmap_log(
    st: StoreView,
    space: nat,
    table: Map<u64, PageEntry>,
    start: u64,
    k: nat,
) -> Seq<PagePointer>
    decreases k,
{
    if k == 0 {
        seq![]
    } else {
        let done = (k - 1) as nat;
        let n = (start + k - 1) as u64;
        unmap_log(st, space, table, start, done) + (if table.contains_key(n) {
            entry_release_log(unmap_store(st, space, table, start, done), table[n])
        } else {
            seq![]
        })
    }
}

proof fn lemma_release_page_frame(a: StoreView, i: int, h: Holder, ours: Set<nat>)
    requires
        a.wf(),
        a.release_page(i, h).wf(),
        0 <= i < a.pages.len(),
        a.pages[i].holders@.contains(h),
        !foreign(h, ours),
        h != Holder::ZeroPage,
    ensures
        frame(a, a.release_page(i, h), ours),
{
    let b = a.release_page(i, h);
    lemma_held(a.pages[i].refs, a.pages[i].holders@, h);
    assert forall|j: int| #![trigger b.pages[j]] 0 <= j < a.pages.len() implies page_frame(
        a,
        b,
        ours,
        j,
    ) by {
        assert(a.page_ok(i));
        assert(a.page_ok(j));
        assert(b.page_ok(j));
        if j != i && a.drops_page(i) && a.pages[i].should_dealloc && a.pages[j].allocated_page
            == a.pages[i].allocated_page {
            assert(a.pages[j].should_dealloc);
            assert(false);
        }
    }
    assert forall|s: int| #![trigger b.slots[s]] 0 <= s < a.slots.len() implies slot_frame(
        a,
        b,
        ours,
        s,
    ) by {}
    assert forall|k: int| #![trigger b.host[k]] 0 <= k < a.host.len() implies b.host[k].lent
        == a.host[k].lent && (a.host[k].lent ==> b.host[k] == a.host[k]) by {
        assert(a.page_ok(i));
    }
}

proof fn lemma_unhold_slot_frame(a: StoreView, s: int, h: Holder, ours: Set<nat>)
    requires
        a.wf(),
        0 <= s < a.slots.len(),
        a.slots[s].holders@.contains(h),
        !foreign(h, ours),
        h is Table,
    ensures
        frame(a, a.unhold_slot(s, h), ours),
{
    let b = a.unhold_slot(s, h);
    lemma_held(a.slots[s].refs, a.slots[s].holders@, h);
    assert forall|k: int| #![trigger b.slots[k]] 0 <= k < a.slots.len() implies slot_frame(
        a,
        b,
        ours,
        k,
    ) by {}
}

/// Dropping one entry leaves the rest of the table valid and other address
/// spaces alone.
proof fn lemma_release(a: StoreView, space: nat, table: Map<u64, PageEntry>, n: u64)
    requires
        a.wf(),
        table_wf(a, space, table),
        table.contains_key(n),
        entry_release(a, space, n, table[n]).wf(),
    ensures
        table_wf(entry_release(a, space, n, table[n]), space, table.remove(n)),
        frame(a, entry_release(a, space, n, table[n]), one(space)),
{
    let e = table[n];
    let h = me(space, n);
    let b = entry_release(a, space, n, e);
    let rest = table.remove(n);
    assert(entry_ok(a, space, n, e));
    match e.source {
        PageSource::Shared(p) => {
            lemma_release_page_frame(a, p as int, h, one(space));
        },
        PageSource::Private { page: p, .. } => {
            lemma_release_page_frame(a, p as int, h, one(space));
        },
        PageSource::Object { slot: s, .. } => {
            lemma_unhold_slot_frame(a, s as int, h, one(space));
            let mid = a.unhold_slot(s as int, h);
            if a.slots[s as int].refs == 1 && a.slots[s as int].page is Some {
                let p = a.slots[s as int].page->0;
                assert(a.slot_ok(s as int));
                lemma_unheld_wf(a, s as int, h);
                lemma_release_page_frame(mid, p as int, Holder::Slot { slot: s }, one(space));
                lemma_frame_trans(a, mid, b, one(space));
            }
        },
    }
    assert forall|m: u64| #[trigger] rest.contains_key(m) implies entry_ok(
        b,
        space,
        m,
        rest[m],
    ) by {
        assert(table.contains_key(m));
        assert(entry_ok(a, space, m, table[m]));
        if let PageSource::Private { page: p, write_protected } = table[m].source {
            if !write_protected {
                assert(!a.pages[p as int].holders@.contains(h));
                assert(b.pages[p as int].holders@ =~= a.pages[p as int].holders@);
            }
        }
    }
    assert forall|i: int, m: u64|
        0 <= i < b.pages.len() && #[trigger] b.pages[i].holders@.contains(
            me(space, m),
        ) implies rest.contains_key(m) && refers_page(rest[m], i) by {
        assert(a.pages[i].holders@.contains(me(space, m)));
    }
    assert forall|i: int, m: u64|
        0 <= i < b.slots.len() && #[trigger] b.slots[i].holders@.contains(
            me(space, m),
        ) implies rest.contains_key(m) && refers_slot(rest[m], i) by {
        assert(a.slots[i].holders@.contains(me(space, m)));
    }
}

/// A slot that a holder let go of, its page still counted for it, is a valid
/// state of the store.
proof fn lemma_unheld_wf(a: StoreView, s: int, h: Holder)
    requires
        a.wf(),
        0 <= s < a.slots.len(),
        a.slots[s].holders@.contains(h),
    ensures
        a.unhold_slot(s, h).wf(),
{
    let b = a.unhold_slot(s, h);
    lemma_held(a.slots[s].refs, a.slots[s].holders@, h);
    assert forall|k: int| #![trigger b.slots[k]] 0 <= k < b.slots.len() implies b.slot_ok(k) by {
        assert(a.slot_ok(k));
    }
    assert forall|i: int| #![trigger b.pages[i]] 0 <= i < b.pages.len() implies b.page_ok(i) by {
        assert(a.page_ok(i));
    }
    assert forall|i: int| #![trigger b.host[i]] 0 <= i < b.host.len() implies b.host_ok(i) by {
        assert(a.host_ok(i));
    }
}

impl PageEntry {
    /// Lets go of what the entry of page `n` holds.
    pub(crate) fn release<T: ICache>(
        self,
        store: &mut PageStore,
        icache: &mut Notified<T>,
        space: Ghost<nat>,
        n: Ghost<u64>,
    )
        requires
            old(store)@.wf(),
            entry_ok(old(store)@, space@, n@, self),
        ensures
            final(store)@.wf(),
            final(store)@ == entry_release(old(store)@, space@, n@, self),
            final(icache).invalidated() == old(icache).invalidated() + entry_release_log(
                old(store)@,
                self,
            ),
    {
        match self.source {
            PageSource::Shared(page) => {
                store.release_page(page, Ghost(me(space@, n@)), icache);
            },
            PageSource::Private { page, .. } => {
                store.release_page(page, Ghost(me(space@, n@)), icache);
            },
            PageSource::Object { slot, .. } => {
                store.release_slot(slot, Ghost(me(space@, n@)), icache);
            },
        }
    }
}

/// Backed pages keep their memory.
pub open spec fn same_memory(a: StoreView, b: StoreView) -> bool {
    &&& b.pages.len() == a.pages.len()
    &&& b.host.len() == a.host.len()
    &&& forall|i: int|
        #![trigger b.pages[i]]
        0 <= i < a.pages.len() ==> b.pages[i].allocated_page == a.pages[i].allocated_page
            && b.pages[i].should_dealloc == a.pages[i].should_dealloc
}

/// The memory of a page that has lost its last holder is given back, unless it
/// is the embedder's.
pub open spec fn given_back(a: StoreView, b: StoreView) -> bool {
    forall|i: int| #[trigger]
        lost(a, b, i) && a.pages[i].should_dealloc
            ==> b.host[a.pages[i].allocated_page.index as int].bytes.len() == 0
}

/// Dropping one more entry adds the page that lost its last holder by it, if
/// there is one, to those that were lost before.
proof fn lemma_release_lost(
    a: StoreView,
    mid: StoreView,
    space: nat,
    n: u64,
    e: PageEntry,
    gone: Seq<int>,
    log: Seq<PagePointer>,
) -> (now: Seq<int>)
    requires
        a.wf(),
        mid.wf(),
        entry_ok(mid, space, n, e),
        lists_lost(gone, a, mid),
        stays_lost(a, mid),
        same_memory(a, mid),
        given_back(a, mid),
    ensures
        ({
            let b = entry_release(mid, space, n, e);
            &&& lists_lost(now, a, b)
            &&& stays_lost(a, b)
            &&& same_memory(a, b)
            &&& given_back(a, b)
            &&& log + memory_of(a, gone) + entry_release_log(mid, e) == log + memory_of(a, now)
        }),
{
    let b = entry_release(mid, space, n, e);
    let dropped: Option<int> = match e.source {
        PageSource::Shared(p) => if mid.drops_page(p as int) {
            Some(p as int)
        } else {
            None
        },
        PageSource::Private { page: p, .. } => if mid.drops_page(p as int) {
            Some(p as int)
        } else {
            None
        },
        PageSource::Object { slot: s, .. } => {
            let slot = mid.slots[s as int];
            if slot.refs == 1 && slot.page is Some && mid.drops_page(slot.page->0 as int) {
                Some(slot.page->0 as int)
            } else {
                None
            }
        },
    };
    let held: Option<int> = match e.source {
        PageSource::Shared(p) => Some(p as int),
        PageSource::Private { page: p, .. } => Some(p as int),
        PageSource::Object { slot: s, .. } => match mid.slots[s as int].page {
            Some(p) => Some(p as int),
            None => None,
        },
    };
    if let PageSource::Object { slot, .. } = e.source {
        assert(mid.slot_ok(slot as int));
    }
    if let Some(p) = held {
        let h = match e.source {
            PageSource::Object { slot, .. } => Holder::Slot { slot },
            _ => me(space, n),
        };
        assert(mid.page_ok(p));
        lemma_held(mid.pages[p].refs, mid.pages[p].holders@, h);
    }
    assert(same_memory(mid, b));
    assert(stays_lost(mid, b)) by {
        assert forall|i: int|
            0 <= i < mid.pages.len() && mid.pages[i].refs == 0 implies #[trigger] b.pages[i].refs
            == 0 by {}
    }
    assert forall|h: int| 0 <= h < mid.host.len() && mid.host[h].bytes.len() == 0 implies (
    #[trigger] b.host[h]).bytes.len() == 0 by {}
    match dropped {
        Some(p) => {
            assert forall|i: int| #[trigger] lost(mid, b, i) <==> i == p by {}
            assert(!gone.contains(p)) by {
                assert(lost(mid, b, p));
                assert(!lost(a, mid, p));
            }
            lemma_lost_more(gone, a, mid, b, p);
            let now = gone.push(p);
            assert(entry_release_log(mid, e) == seq![mid.pages[p].allocated_page]);
            assert(log + memory_of(a, gone) + entry_release_log(mid, e) =~= log + memory_of(a, now));
            assert forall|i: int| #[trigger] lost(a, b, i) && a.pages[i].should_dealloc implies b.host[a.pages[i].allocated_page.index as int].bytes.len()
                == 0 by {
                assert(now.contains(i));
                let k = now.index_of(i);
                if k < gone.len() {
                    assert(gone[k] == i);
                    assert(gone.contains(i));
                    assert(lost(a, mid, i));
                    assert(mid.page_ok(i));
                } else {
                    assert(i == p);
                }
            }
            now
        },
        None => {
            assert forall|i: int| !(#[trigger] lost(mid, b, i)) by {}
            lemma_lost_same(gone, a, mid, b);
            assert(log + memory_of(a, gone) + entry_release_log(mid, e) =~= log + memory_of(a, gone));
            assert forall|i: int| #[trigger] lost(a, b, i) && a.pages[i].should_dealloc implies b.host[a.pages[i].allocated_page.index as int].bytes.len()
                == 0 by {
                assert(gone.contains(i));
                assert(lost(a, mid, i));
                assert(mid.page_ok(i));
            }
            gone
        },
    }
}

impl PageTable {
    /// Unmaps the mapped pages of `pages`; the others are skipped. Tells
    /// whether there was one.
    pub fn unmap<T: ICache>(&mut self, store: &mut PageStore, icache: &mut Notified<T>, pages: PageTableAccess) -> (r:
        bool)
        requires
            old(store)@.wf(),
            old(self).wf(old(store)@),
            pages.wf(),
        ensures
            final(store)@.wf(),
            final(self).wf(final(store)@),
            final(self).space == old(self).space,
            final(self)@ == old(self)@.remove_keys(Set::new(|n: u64| pages.contains(n as int))),
            final(store)@ == unmap_store(
                old(store)@,
                old(self).space@,
                old(self)@,
                pages.start_page,
                pages.page_count as nat,
            ),
            frame(old(store)@, final(store)@, one(old(self).space@)),
            final(icache).invalidated() == old(icache).invalidated() + unmap_log(
                old(store)@,
                old(self).space@,
                old(self)@,
                pages.start_page,
                pages.page_count as nat,
            ),
            r == exists|n: u64| pages.contains(n as int) && #[trigger] old(self)@.contains_key(n),
            exists|gone: Seq<int>| #[trigger]
                lists_lost(gone, old(store)@, final(store)@) && final(icache).invalidated() == old(
                    icache,
                ).invalidated() + memory_of(old(store)@, gone),
            given_back(old(store)@, final(store)@),
    {
        let end: u64 = pages.start_page + pages.page_count;
        let ghost mut gone: Seq<int> = seq![];
        let ghost a = store@;
        let ghost before = self@;
        let ghost space = self.space@;
        let ghost log = icache.invalidated();
        proof {
            lemma_frame_refl(a, one(space));
        }
        let mut removed: bool = false;
        let mut page: u64 = pages.start_page;
        assert(self@ =~= before.remove_keys(Set::new(|n: u64| pages.start_page <= n < page)));
        assert(log + seq![] =~= log);
        assert(log + memory_of(a, gone) =~= log);
        while page < end
            invariant
                pages.wf(),
                end == pages.start_page + pages.page_count,
                pages.start_page <= page <= end,
                lists_lost(gone, a, store@),
                stays_lost(a, store@),
                same_memory(a, store@),
                given_back(a, store@),
                icache.invalidated() == log + memory_of(a, gone),
                self.space@ == space,
                self.space == old(self).space,
                a.wf(),
                store@.wf(),
                self.wf(store@),
                self@ == before.remove_keys(Set::new(|n: u64| pages.start_page <= n < page)),
                store@ == unmap_store(
                    a,
                    space,
                    before,
                    pages.start_page,
                    (page - pages.start_page) as nat,
                ),
                frame(a, store@, one(space)),
                icache.invalidated() == log + unmap_log(
                    a,
                    space,
                    before,
                    pages.start_page,
                    (page - pages.start_page) as nat,
                ),
                removed == exists|n: u64|
                    pages.start_page <= n < page && #[trigger] before.contains_key(n),
            decreases end - page,
        {
            let ghost mid = store@;
            let ghost mid_table = self@;
            let ghost mid_log = icache.invalidated();
            let ghost k = (page + 1 - pages.start_page) as nat;
            assert((pages.start_page + k - 1) as u64 == page);
            assert((k - 1) as nat == (page - pages.start_page) as nat);
            match self.table.remove(&page) {
                Some(entry) => {
                    assert(before.contains_key(page) && entry == before[page]);
                    assert(mid_table.contains_key(page));
                    entry.release(store, icache, self.space, Ghost(page));
                    proof {
                        lemma_release(mid, space, mid_table, page);
                        lemma_frame_trans(a, mid, store@, one(space));
                        gone = lemma_release_lost(a, mid, space, page, entry, gone, log);
                    }
                    removed = true;
                },
                None => {
                    assert(!before.contains_key(page));
                    assert(mid_table.remove(page) =~= mid_table);
                },
            }
            assert(self@ =~= before.remove_keys(
                Set::new(|n: u64| pages.start_page <= n < page + 1),
            ));
            assert(icache.invalidated() =~= log + unmap_log(
                a,
                space,
                before,
                pages.start_page,
                k,
            ));
            page += 1;
        }
        proof {
            assert(Set::new(|n: u64| pages.start_page <= n < page) =~= Set::new(
                |n: u64| pages.contains(n as int),
            ));
        }
        removed
    }
}

/// A table stays valid when the entry of page `n` alone changes what it
/// holds.
proof fn lemma_update(
    a: StoreView,
    b: StoreView,
    space: nat,
    table: Map<u64, PageEntry>,
    n: u64,
    e: PageEntry,
)
    requires
        table_wf(a, space, table),
        n <= MAX_PAGE_NUMBER,
        entry_ok(b, space, n, e),
        a.pages.len() <= b.pages.len(),
        a.slots.len() <= b.slots.len(),
        forall|i: int, m: u64|
            0 <= i < a.pages.len() && m != n ==> #[trigger] b.pages[i].holders@.contains(
                me(space, m),
            ) == a.pages[i].holders@.contains(me(space, m)),
        forall|i: int, m: u64|
            #![trigger b.pages[i], me(space, m)]
            0 <= i < a.pages.len() && m != n && a.pages[i].holders@ == Set::empty().insert(
                me(space, m),
            ) ==> b.pages[i].holders@ == Set::empty().insert(me(space, m)),
        forall|i: int|
            0 <= i < a.pages.len() ==> #[trigger] b.pages[i].holders@.contains(Holder::ZeroPage)
                == a.pages[i].holders@.contains(Holder::ZeroPage),
        forall|i: int|
            0 <= i < b.pages.len() && #[trigger] b.pages[i].holders@.contains(me(space, n))
                ==> refers_page(e, i),
        forall|i: int, m: u64|
            a.pages.len() <= i < b.pages.len() && #[trigger] b.pages[i].holders@.contains(
                me(space, m),
            ) ==> m == n,
        forall|s: int, m: u64|
            0 <= s < a.slots.len() && m != n ==> #[trigger] b.slots[s].holders@.contains(
                me(space, m),
            ) == a.slots[s].holders@.contains(me(space, m)),
        forall|s: int|
            0 <= s < b.slots.len() && #[trigger] b.slots[s].holders@.contains(me(space, n))
                ==> refers_slot(e, s),
        forall|s: int, m: u64|
            a.slots.len() <= s < b.slots.len() && #[trigger] b.slots[s].holders@.contains(
                me(space, m),
            ) ==> m == n,
        forall|s: int, m: u64|
            0 <= s < a.slots.len() && m != n && #[trigger] a.slots[s].holders@.contains(
                me(space, m),
            ) ==> {
                &&& resident_ok(a, s) ==> resident_ok(b, s)
                &&& sole_entry(a.slots[s].holders@, me(space, m)) ==> sole_entry(
                    b.slots[s].holders@,
                    me(space, m),
                )
            },
        pages_apart(b, space),
        slots_apart(b, space),
    ensures
        table_wf(b, space, table.insert(n, e)),
{
    let new_table = table.insert(n, e);
    assert forall|m: u64| #[trigger] new_table.contains_key(m) implies m <= MAX_PAGE_NUMBER
        && entry_ok(b, space, m, new_table[m]) by {
        if m != n {
            assert(table.contains_key(m));
            assert(entry_ok(a, space, m, table[m]));
        }
    }
    assert forall|i: int, m: u64|
        0 <= i < b.pages.len() && #[trigger] b.pages[i].holders@.contains(
            me(space, m),
        ) implies new_table.contains_key(m) && refers_page(new_table[m], i) by {
        if i < a.pages.len() && m != n {
            assert(a.pages[i].holders@.contains(me(space, m)));
        }
    }
    assert forall|s: int, m: u64|
        0 <= s < b.slots.len() && #[trigger] b.slots[s].holders@.contains(
            me(space, m),
        ) implies new_table.contains_key(m) && refers_slot(new_table[m], s) by {
        if s < a.slots.len() && m != n {
            assert(a.slots[s].holders@.contains(me(space, m)));
        }
    }
}

/// What forking does to an entry `e`: `parent` stands in its place and
/// `child` in the new address space. Shared pages stay shared. A private
/// page becomes copy-on-write on both sides. A private page of an object
/// that was not faulted in yet is faulted in by each side for itself: the new
/// address space has a slot of its own.
pub open spec fn forked(
    a: StoreView,
    b: StoreView,
    child_space: nat,
    n: u64,
    e: PageEntry,
    parent: PageEntry,
    child: PageEntry,
) -> bool {
    &&& parent.protections == e.protections
    &&& child.protections == e.protections
    &&& match e.source {
        PageSource::Shared(_) => parent.source == e.source && child.source == e.source,
        PageSource::Private { page, .. } => {
            &&& parent.source == PageSource::Private { page, write_protected: true }
            &&& child.source == parent.source
        },
        PageSource::Object { slot, shared } => if shared {
            parent.source == e.source && child.source == e.source
        } else {
            match a.slots[slot as int].page {
                Some(page) => {
                    &&& parent.source == PageSource::Private { page, write_protected: true }
                    &&& child.source == parent.source
                },
                None => {
                    &&& parent.source == e.source
                    &&& child.source matches PageSource::Object { slot: copy, shared: false }
                    &&& copy != slot
                    &&& b.slots[copy as int].holders@ == Set::empty().insert(me(child_space, n))
                    &&& b.slots[copy as int].object == a.slots[slot as int].object
                    &&& b.slots[copy as int].page_offset == a.slots[slot as int].page_offset
                    &&& b.slots[copy as int].page is None
                },
            }
        },
    }
}

/// Some entry of a table is not what it was.
pub open spec fn entries_changed(
    before: Map<u64, PageEntry>,
    after: Map<u64, PageEntry>,
) -> bool {
    exists|n: u64| #[trigger] before.contains_key(n) && after[n] != before[n]
}

/// What an address space holds, the one that it is being forked from holds for
/// the same page, but for slots that the latter has nothing to do with.
pub open spec fn mirrors(st: StoreView, space: nat, new_space: nat) -> bool {
    &&& forall|b: int, m: u64|
        0 <= b < st.pages.len() && #[trigger] st.pages[b].holders@.contains(me(new_space, m))
            ==> st.pages[b].holders@.contains(me(space, m))
    &&& forall|s: int, m: u64, k: u64|
        0 <= s < st.slots.len() && #[trigger] st.slots[s].holders@.contains(me(new_space, m))
            && #[trigger] st.slots[s].holders@.contains(me(space, k))
            ==> st.slots[s].holders@.contains(me(space, m))
}

/// Two address spaces.
pub open spec fn two(space: nat, other: nat) -> Set<nat> {
    Set::empty().insert(space).insert(other)
}

impl PageEntry {
    /// Forks the entry of page `n`: gives what stands in its place and what
    /// the new address space gets.
    #[verifier::spinoff_prover]
    #[verifier::rlimit(100)]
    pub(crate) fn fork<T: ICache>(
        self,
        store: &mut PageStore,
        icache: &mut Notified<T>,
        space: Ghost<nat>,
        table: Ghost<Map<u64, PageEntry>>,
        new_space: Ghost<nat>,
        new_table: Ghost<Map<u64, PageEntry>>,
        n: Ghost<u64>,
    ) -> (r: (Self, Self))
        requires
            old(store)@.wf(),
            space@ != new_space@,
            table_wf(old(store)@, space@, table@),
            table@.contains_key(n@),
            table@[n@] == self,
            table_wf(old(store)@, new_space@, new_table@),
            !new_table@.contains_key(n@),
            mirrors(old(store)@, space@, new_space@),
        ensures
            final(store)@.wf(),
            table_wf(final(store)@, space@, table@.insert(n@, r.0)),
            table_wf(final(store)@, new_space@, new_table@.insert(n@, r.1)),
            forked(old(store)@, final(store)@, new_space@, n@, self, r.0, r.1),
            mirrors(final(store)@, space@, new_space@),
            old(store)@.slots.len() <= final(store)@.slots.len(),
            forall|s: int|
                #![trigger final(store)@.slots[s]]
                0 <= s < old(store)@.slots.len() && !old(store)@.slots[s].holders@.contains(
                    me(space@, n@),
                ) ==> final(store)@.slots[s].holders@ == old(store)@.slots[s].holders@,
            frame(old(store)@, final(store)@, two(space@, new_space@)),
            final(icache).invalidated() == old(icache).invalidated(),
    {
        let ghost a = store@;
        let ghost ph = me(space@, n@);
        let ghost ch = me(new_space@, n@);
        let ghost ours = two(space@, new_space@);
        proof {
            assert(entry_ok(a, space@, n@, self));
            assert forall|i: int| 0 <= i < a.pages.len() implies !(#[trigger] a.pages[i]).holders@.contains(
                ch,
            ) by {
                if a.pages[i].holders@.contains(me(new_space@, n@)) {
                    assert(new_table@.contains_key(n@));
                }
            }
            assert forall|s: int| 0 <= s < a.slots.len() implies !(#[trigger] a.slots[s]).holders@.contains(
                ch,
            ) by {
                if a.slots[s].holders@.contains(me(new_space@, n@)) {
                    assert(new_table@.contains_key(n@));
                }
            }
        }
        let (parent_source, child_source): (PageSource, PageSource) = match self.source {
            PageSource::Shared(page) => {
                proof {
                    lemma_held(a.pages[page as int].refs, a.pages[page as int].holders@, ph);
                }
                store.hold_page(page, Ghost(ch));
                (self.source, self.source)
            },
            PageSource::Private { page, .. } => {
                proof {
                    lemma_held(a.pages[page as int].refs, a.pages[page as int].holders@, ph);
                }
                store.hold_page(page, Ghost(ch));
                let source = PageSource::Private { page, write_protected: true };
                (source, source)
            },
            PageSource::Object { slot, shared } => {
                assert(a.slot_ok(slot as int));
                if shared {
                    store.hold_slot(slot, Ghost(ch));
                    (self.source, self.source)
                } else {
                    match store.slots[slot].page {
                        Some(page) => {
                            proof {
                                lemma_held(
                                    a.pages[page as int].refs,
                                    a.pages[page as int].holders@,
                                    Holder::Slot { slot },
                                );
                                if a.pages[page as int].holders@.contains(me(space@, n@)) {
                                    assert(refers_page(table@[n@], page as int));
                                }
                            }
                            store.hold_page(page, Ghost(ph));
                            store.hold_page(page, Ghost(ch));
                            let ghost mid = store@;
                            let ghost log = icache.invalidated();
                            store.release_slot(slot, Ghost(ph), icache);
                            proof {
                                let held = mid.pages[page as int].holders@;
                                assert(held.contains(ph) && held.contains(ch));
                                assert(held.len() >= 2) by {
                                    assert(held.remove(ph).contains(ch));
                                    assert(held.remove(ph).remove(ch).len() + 2 == held.len());
                                }
                                assert(mid.page_ok(page as int));
                                assert(mid.release_slot_log(slot as int) =~= seq![]);
                                assert(icache.invalidated() =~= log);
                            }
                            let source = PageSource::Private { page, write_protected: true };
                            (source, source)
                        },
                        None => {
                            let object: u64 = store.slots[slot].object;
                            let page_offset: u64 = store.slots[slot].page_offset;
                            let copy: usize = store.new_slot(object, page_offset, Ghost(ch));
                            (self.source, PageSource::Object { slot: copy, shared: false })
                        },
                    }
                }
            },
        };
        let parent = PageEntry { source: parent_source, protections: self.protections };
        let child = PageEntry { source: child_source, protections: self.protections };
        proof {
            let b = store@;
            assert(forked(a, b, new_space@, n@, self, parent, child));
            assert forall|i: int| #![trigger b.pages[i]] 0 <= i < a.pages.len() implies page_frame(
                a,
                b,
                ours,
                i,
            ) by {
                assert(a.page_ok(i));
                assert(b.page_ok(i));
            }
            assert forall|s: int| #![trigger b.slots[s]] 0 <= s < a.slots.len() implies slot_frame(
                a,
                b,
                ours,
                s,
            ) by {
                assert(a.slot_ok(s));
            }
            assert(frame(a, b, ours));
            assert(entry_ok(b, space@, n@, parent));
            assert(entry_ok(b, new_space@, n@, child));
            assert forall|i: int, m: u64|
                0 <= i < b.pages.len() && #[trigger] b.pages[i].holders@.contains(
                    me(new_space@, m),
                ) implies b.pages[i].holders@.contains(me(space@, m)) by {
                if m != n@ {
                    assert(a.pages[i].holders@.contains(me(new_space@, m)));
                    assert(a.pages[i].holders@.contains(me(space@, m)));
                }
            }
            assert forall|s: int, m: u64, k: u64|
                0 <= s < b.slots.len() && #[trigger] b.slots[s].holders@.contains(
                    me(new_space@, m),
                ) && #[trigger] b.slots[s].holders@.contains(
                    me(space@, k),
                ) implies b.slots[s].holders@.contains(me(space@, m)) by {
                if m != n@ {
                    assert(a.slots[s].holders@.contains(me(new_space@, m)));
                    if k != n@ {
                        assert(a.slots[s].holders@.contains(me(space@, k)));
                    } else {
                        assert(a.slots[s].holders@.contains(ph));
                    }
                    assert(a.slots[s].holders@.contains(me(space@, m)));
                }
            }
            assert forall|i: int, m: u64, k: u64|
                0 <= i < b.pages.len() && #[trigger] b.pages[i].holders@.contains(
                    me(space@, m),
                ) && #[trigger] b.pages[i].holders@.contains(me(space@, k)) && m
                    != k implies b.pages[i].holders@.contains(Holder::ZeroPage) by {
                assert(m != n@ ==> a.pages[i].holders@.contains(me(space@, m)));
                assert(k != n@ ==> a.pages[i].holders@.contains(me(space@, k)));
            }
            assert forall|i: int, m: u64, k: u64|
                0 <= i < b.pages.len() && #[trigger] b.pages[i].holders@.contains(
                    me(new_space@, m),
                ) && #[trigger] b.pages[i].holders@.contains(me(new_space@, k)) && m
                    != k implies b.pages[i].holders@.contains(Holder::ZeroPage) by {
                assert(b.pages[i].holders@.contains(me(space@, m)));
                assert(b.pages[i].holders@.contains(me(space@, k)));
            }
            assert(pages_apart(b, space@));
            assert(pages_apart(b, new_space@));
            assert forall|s: int, m: u64, k: u64|
                0 <= s < b.slots.len() && #[trigger] b.slots[s].holders@.contains(
                    me(new_space@, m),
                ) && #[trigger] b.slots[s].holders@.contains(me(new_space@, k)) implies m == k by {
                if m != n@ {
                    assert(a.slots[s].holders@.contains(me(new_space@, m)));
                }
                if k != n@ {
                    assert(a.slots[s].holders@.contains(me(new_space@, k)));
                }
            }
            lemma_update(a, b, space@, table@, n@, parent);
            lemma_update(a, b, new_space@, new_table@, n@, child);
        }
        (parent, child)
    }
}

/// The members of one more element of a sequence.
proof fn lemma_take_push(s: Seq<u64>, i: int)
    requires
        0 <= i < s.len(),
    ensures
        forall|m: u64| #[trigger] s.take(i + 1).contains(m) <==> s.take(i).contains(m) || m == s[i],
{
    let more = s.take(i + 1);
    let less = s.take(i);
    assert forall|m: u64| #[trigger] more.contains(m) <==> less.contains(m) || m == s[i] by {
        if less.contains(m) {
            let j = choose|j: int| 0 <= j < less.len() && less[j] == m;
            assert(more[j] == m);
        }
        if more.contains(m) {
            let j = choose|j: int| 0 <= j < more.len() && more[j] == m;
            if j < i {
                assert(less[j] == m);
            }
        }
        if m == s[i] {
            assert(more[i] == m);
        }
    }
}

/// What forking saw stays so while other entries are forked.
proof fn lemma_forked_stable(
    a: StoreView,
    b: StoreView,
    c: StoreView,
    ours: Set<nat>,
    new_space: nat,
    n: u64,
    e: PageEntry,
    parent: PageEntry,
    child: PageEntry,
)
    requires
        b.wf(),
        c.wf(),
        frame(b, c, ours),
        entry_ok(b, new_space, n, child),
        entry_ok(c, new_space, n, child),
        forked(a, b, new_space, n, e, parent, child),
        child.source matches PageSource::Object { slot, .. } ==> (b.slots[slot as int].holders@
            == Set::empty().insert(me(new_space, n)) ==> c.slots[slot as int].holders@
            == b.slots[slot as int].holders@),
    ensures
        forked(a, c, new_space, n, e, parent, child),
{
    if let PageSource::Object { slot, .. } = child.source {
        assert(slot_frame(b, c, ours, slot as int));
        lemma_held(c.slots[slot as int].refs, c.slots[slot as int].holders@, me(new_space, n));
    }
}

impl PageTable {
    /// The numbers of all mapped pages, in no particular order.
    pub fn page_numbers(&self) -> (r: Vec<u64>)
        ensures
            r@.no_duplicates(),
            forall|n: u64| #[trigger] r@.contains(n) <==> self@.contains_key(n),
    {
        let mut numbers: Vec<u64> = Vec::new();
        for n in it: self.table.keys()
            invariant
                numbers@ == it.seq().unref().take(it.index()),
        {
            numbers.push(*n);
            assert(numbers@ =~= it.seq().unref().take(it.index() + 1));
        }
        proof {
            assert(
                numbers@ =~= vstd::std_specs::hash::spec_keys_iter(&self.table).remaining().unref()
            );
        }
        numbers
    }

    /// Forks the table for address space `new_space`, and tells whether this
    /// table has changed.
    pub(crate) fn fork<T: ICache>(
        &mut self,
        store: &mut PageStore,
        icache: &mut Notified<T>,
        new_space: Ghost<nat>,
    ) -> (r: (PageTable, bool))
        requires
            old(store)@.wf(),
            old(self).wf(old(store)@),
            table_wf(old(store)@, new_space@, Map::<u64, PageEntry>::empty()),
            new_space@ != old(self).space@,
        ensures
            final(store)@.wf(),
            final(self).wf(final(store)@),
            r.0.wf(final(store)@),
            final(self).space == old(self).space,
            r.0.space == new_space,
            final(self)@.dom() == old(self)@.dom(),
            r.0@.dom() == old(self)@.dom(),
            forall|n: u64| #[trigger]
                old(self)@.contains_key(n) ==> forked(
                    old(store)@,
                    final(store)@,
                    new_space@,
                    n,
                    old(self)@[n],
                    final(self)@[n],
                    r.0@[n],
                ),
            r.1 == entries_changed(old(self)@, final(self)@),
            frame(old(store)@, final(store)@, two(old(self).space@, new_space@)),
            final(icache).invalidated() == old(icache).invalidated(),
    {
        let numbers: Vec<u64> = self.page_numbers();
        let mut child = PageTable::new(new_space);
        let ghost a = store@;
        let ghost before = self@;
        let ghost ours = two(self.space@, new_space@);
        proof {
            lemma_frame_refl(a, ours);
            assert(mirrors(a, self.space@, new_space@)) by {
                let none = Map::<u64, PageEntry>::empty();
                assert forall|b: int, m: u64|
                    0 <= b < a.pages.len() implies !(#[trigger] a.pages[b].holders@.contains(
                    me(new_space@, m),
                )) by {
                    if a.pages[b].holders@.contains(me(new_space@, m)) {
                        assert(none.contains_key(m));
                    }
                }
                assert forall|s: int, m: u64|
                    0 <= s < a.slots.len() implies !(#[trigger] a.slots[s].holders@.contains(
                    me(new_space@, m),
                )) by {
                    if a.slots[s].holders@.contains(me(new_space@, m)) {
                        assert(none.contains_key(m));
                    }
                }
            }
        }
        let mut modified: bool = false;
        let mut i: usize = 0;
        while i < numbers.len()
            invariant
                modified == entries_changed(before, self@),
                0 <= i <= numbers@.len(),
                numbers@.no_duplicates(),
                forall|n: u64| #[trigger] numbers@.contains(n) <==> before.contains_key(n),
                self.space == old(self).space,
                child.space == new_space,
                ours == two(self.space@, new_space@),
                new_space@ != self.space@,
                a.wf(),
                store@.wf(),
                table_wf(a, self.space@, before),
                self.wf(store@),
                child.wf(store@),
                self@.dom() == before.dom(),
                forall|n: u64| #[trigger]
                    child@.contains_key(n) <==> numbers@.take(i as int).contains(n),
                forall|n: u64|
                    before.contains_key(n) && !child@.contains_key(n) ==> #[trigger] self@[n]
                        == before[n],
                forall|n: u64| #[trigger]
                    child@.contains_key(n) ==> forked(
                        a,
                        store@,
                        new_space@,
                        n,
                        before[n],
                        self@[n],
                        child@[n],
                    ),
                mirrors(store@, self.space@, new_space@),
                frame(a, store@, ours),
                icache.invalidated() == old(icache).invalidated(),
            decreases numbers.len() - i,
        {
            let n: u64 = numbers[i];
            let ghost mid = store@;
            let ghost mid_table = self@;
            let ghost mid_child = child@;
            proof {
                assert(numbers@.contains(n));
                assert(before.contains_key(n));
                if numbers@.take(i as int).contains(n) {
                    let j = choose|j: int| 0 <= j < i && numbers@.take(i as int)[j] == n;
                    assert(numbers@[j] == numbers@[i as int]);
                }
                assert(!child@.contains_key(n));
                assert(self@.contains_key(n));
            }
            if let Some(entry) = self.table.get(&n) {
                let entry: PageEntry = *entry;
                let (parent_entry, child_entry) = entry.fork(
                    store,
                    icache,
                    self.space,
                    Ghost(self@),
                    new_space,
                    Ghost(child@),
                    Ghost(n),
                );
                self.table.insert(n, parent_entry);
                child.table.insert(n, child_entry);
                let ghost was_modified = modified;
                if parent_entry != entry {
                    modified = true;
                }
                proof {
                    if was_modified {
                        let m = choose|m: u64| #[trigger]
                            before.contains_key(m) && mid_table[m] != before[m];
                        assert(before.contains_key(m) && self@[m] != before[m]);
                    }
                    if parent_entry != entry {
                        assert(before.contains_key(n) && self@[n] != before[n]);
                    }
                    assert forall|m: u64| #[trigger]
                        before.contains_key(m) && self@[m] != before[m] implies modified by {
                        if m != n {
                            assert(before.contains_key(m) && mid_table[m] != before[m]);
                        }
                    }
                    lemma_frame_trans(a, mid, store@, ours);
                    assert(self@.dom() =~= before.dom());
                    assert forall|m: u64| #[trigger] child@.contains_key(m) implies forked(
                        a,
                        store@,
                        new_space@,
                        m,
                        before[m],
                        self@[m],
                        child@[m],
                    ) by {
                        if m == n {
                            if let PageSource::Object { slot, .. } = before[n].source {
                                assert(entry_ok(a, self.space@, n, before[n]));
                                assert(entry_ok(mid, self.space@, n, before[n]));
                                assert(slot_frame(a, mid, ours, slot as int));
                                lemma_held(
                                    mid.slots[slot as int].refs,
                                    mid.slots[slot as int].holders@,
                                    me(self.space@, n),
                                );
                            }
                        } else {
                            assert(mid_child.contains_key(m));
                            lemma_forked_stable(
                                a,
                                mid,
                                store@,
                                ours,
                                new_space@,
                                m,
                                before[m],
                                self@[m],
                                child@[m],
                            );
                        }
                    }
                    lemma_take_push(numbers@, i as int);
                }
            }
            i += 1;
        }
        assert(numbers@.take(numbers@.len() as int) =~= numbers@);
        assert(child@.dom() =~= before.dom());
        (child, modified)
    }
}

/// What resolving a copy-on-write entry `e` gives: memory of its own with
/// the same contents, which is the old page itself where nobody else holds
/// it and it is not the embedder's. Other entries stay.
pub open spec fn uncowed(a: StoreView, b: StoreView, e: PageEntry, r: PageEntry) -> bool {
    match e.source {
        PageSource::Private { page, write_protected: true } => {
            &&& r.protections == e.protections
            &&& r.source matches PageSource::Private { page: own, write_protected: false }
            &&& b.pages[own as int].should_dealloc
            &&& b.bytes(own as int) == a.bytes(page as int)
            &&& own == page <==> a.pages[page as int].refs == 1
                && a.pages[page as int].should_dealloc
            &&& own != page ==> own >= a.pages.len() && b.pages[own as int].dirty_page_flags == 0
        },
        _ => r == e,
    }
}

/// The invalidations that come with resolving a copy-on-write entry: those
/// of a page of the embedder's memory that nobody holds any more.
pub open spec fn uncow_log(a: StoreView, e: PageEntry) -> Seq<PagePointer> {
    match e.source {
        PageSource::Private { page, write_protected: true } => if a.pages[page as int].refs == 1
            && !a.pages[page as int].should_dealloc {
            seq![a.pages[page as int].allocated_page]
        } else {
            seq![]
        },
        _ => seq![],
    }
}

/// Page `i` has lost its last holder.
pub open spec fn lost(a: StoreView, b: StoreView, i: int) -> bool {
    &&& 0 <= i < a.pages.len()
    &&& a.pages[i].refs > 0
    &&& b.pages[i].refs == 0
}

/// The pages that have lost their last holders, each of them once.
pub open spec fn lists_lost(gone: Seq<int>, a: StoreView, b: StoreView) -> bool {
    &&& gone.no_duplicates()
    &&& forall|i: int| #[trigger] gone.contains(i) <==> lost(a, b, i)
}

/// A page that nobody held stays one that nobody holds.
pub open spec fn stays_lost(a: StoreView, b: StoreView) -> bool {
    forall|i: int|
        0 <= i < a.pages.len() && a.pages[i].refs == 0 ==> #[trigger] b.pages[i].refs == 0
}

/// The memory of pages.
pub open spec fn memory_of(st: StoreView, pages: Seq<int>) -> Seq<PagePointer> {
    pages.map_values(|i: int| st.pages[i].allocated_page)
}

impl PageEntry {
    /// Gives a copy-on-write entry memory of its own.
    #[verifier::spinoff_prover]
    #[verifier::rlimit(60)]
    pub(crate) fn un_cow<T: ICache>(
        self,
        store: &mut PageStore,
        icache: &mut Notified<T>,
        space: Ghost<nat>,
        table: Ghost<Map<u64, PageEntry>>,
        n: Ghost<u64>,
    ) -> (r: Self)
        requires
            old(store)@.wf(),
            table_wf(old(store)@, space@, table@),
            table@.contains_key(n@),
            table@[n@] == self,
        ensures
            final(store)@.wf(),
            table_wf(final(store)@, space@, table@.insert(n@, r)),
            uncowed(old(store)@, final(store)@, self, r),
            frame(old(store)@, final(store)@, one(space@)),
            final(icache).invalidated() == old(icache).invalidated() + uncow_log(old(store)@, self),
            forall|i: int| #[trigger]
                lost(old(store)@, final(store)@, i) <==> uncow_log(old(store)@, self).len() > 0 && i
                    == self.source->page,
            stays_lost(old(store)@, final(store)@),
            forall|i: int|
                #![trigger final(store)@.pages[i]]
                0 <= i < old(store)@.pages.len() && !old(store)@.pages[i].holders@.contains(
                    me(space@, n@),
                ) ==> final(store)@.pages[i].refs == old(store)@.pages[i].refs,
    {
        let ghost a = store@;
        let ghost h = me(space@, n@);
        assert(entry_ok(a, space@, n@, self));
        assert(icache.invalidated() + seq![] =~= icache.invalidated());
        proof {
            lemma_frame_refl(a, one(space@));
        }
        match self.source {
            PageSource::Private { page, write_protected } => {
                if !write_protected {
                    assert(table@.insert(n@, self) =~= table@);
                    return self;
                }
                assert(a.page_ok(page as int));
                let ghost held = a.pages[page as int].holders@;
                proof {
                    lemma_held(a.pages[page as int].refs, held, h);
                }
                if store.pages[page].refs == 1 && store.pages[page].should_dealloc {
                    let r = PageEntry {
                        source: PageSource::Private { page, write_protected: false },
                        protections: self.protections,
                    };
                    proof {
                        assert(held.remove(h).len() == 0);
                        assert(held =~= Set::empty().insert(h)) by {
                            assert forall|k: Holder| held.contains(k) implies k == h by {
                                if k != h {
                                    assert(held.remove(h).contains(k));
                                }
                            }
                        }
                        lemma_update(a, a, space@, table@, n@, r);
                    }
                    return r;
                }
                let own: usize = store.clone_page(page, Ghost(h));
                let ghost mid = store@;
                store.release_page(page, Ghost(h), icache);
                let r = PageEntry {
                    source: PageSource::Private { page: own, write_protected: false },
                    protections: self.protections,
                };
                proof {
                    let b = store@;
                    assert(mid.pages[page as int] == a.pages[page as int]);
                    assert(forall|i: int|
                        #![trigger mid.pages[i]]
                        0 <= i < a.pages.len() ==> page_frame(a, mid, one(space@), i)) by {
                        assert forall|i: int|
                            #![trigger mid.pages[i]]
                            0 <= i < a.pages.len() implies page_frame(a, mid, one(space@), i) by {
                            assert(a.page_ok(i));
                        }
                    }
                    assert(frame(a, mid, one(space@)));
                    lemma_release_page_frame(mid, page as int, h, one(space@));
                    lemma_frame_trans(a, mid, b, one(space@));
                    assert(page_frame(mid, b, one(space@), own as int));
                    assert(b.bytes(own as int) == a.bytes(page as int));
                    lemma_update(a, b, space@, table@, n@, r);
                    assert(icache.invalidated() =~= old(icache).invalidated() + uncow_log(a, self));
                }
                r
            },
            _ => {
                assert(table@.insert(n@, self) =~= table@);
                self
            },
        }
    }
}

/// What an entry becomes when all copy-on-write pages are resolved: a
/// copy-on-write entry gets memory of its own with the same contents, which is
/// the old page itself where nobody else holds it and it is not the
/// embedder's, and a new, clean page otherwise. Any other entry stays.
pub open spec fn copied(a: StoreView, b: StoreView, e: PageEntry, r: PageEntry) -> bool {
    match e.source {
        PageSource::Private { page, write_protected: true } => {
            &&& r.protections == e.protections
            &&& r.source matches PageSource::Private { page: own, write_protected: false }
            &&& b.pages[own as int].should_dealloc
            &&& b.bytes(own as int) == a.bytes(page as int)
            &&& own == page <==> a.pages[page as int].refs == 1
                && a.pages[page as int].should_dealloc
            &&& own != page ==> own >= a.pages.len() && b.pages[own as int].dirty_page_flags == 0
        },
        _ => r == e,
    }
}

/// The page of a copy-on-write entry is the zero page, or has as many holders
/// as it had.
spec fn counted_as_before(a: StoreView, b: StoreView, e: PageEntry) -> bool {
    e.source matches PageSource::Private { page, write_protected: true } ==> {
        ||| a.pages[page as int].holders@.contains(Holder::ZeroPage)
        ||| b.pages[page as int].refs == a.pages[page as int].refs
    }
}

/// The zero page has more than one holder once somebody maps it.
proof fn lemma_zero_page_shared(st: StoreView, b: int, h: Holder)
    requires
        st.wf(),
        0 <= b < st.pages.len(),
        st.pages[b].holders@.contains(Holder::ZeroPage),
        st.pages[b].holders@.contains(h),
        h != Holder::ZeroPage,
    ensures
        st.pages[b].refs > 1,
{
    let holders = st.pages[b].holders@;
    assert(st.page_ok(b));
    assert(holders.remove(h).contains(Holder::ZeroPage));
    assert(holders.remove(h).remove(Holder::ZeroPage).len() + 2 == holders.len());
}

/// Whether an entry is copy-on-write.
pub open spec fn is_cow(e: PageEntry) -> bool {
    e.source matches PageSource::Private { write_protected: true, .. }
}

/// Every pointer of `log` from `from` on is to memory of the embedder.
pub open spec fn lent_since(st: StoreView, log: Seq<PagePointer>, from: int) -> bool {
    forall|i: int|
        #![trigger log[i]]
        from <= i < log.len() ==> log[i].index < st.host.len() && st.host[log[i].index as int].lent
}

/// One more page has lost its last holder.
proof fn lemma_lost_more(gone: Seq<int>, a: StoreView, b: StoreView, c: StoreView, p: int)
    requires
        lists_lost(gone, a, b),
        !gone.contains(p),
        a.pages.len() <= b.pages.len(),
        0 <= p < a.pages.len(),
        forall|i: int| #[trigger] lost(b, c, i) <==> i == p,
        stays_lost(a, b),
        stays_lost(b, c),
    ensures
        lists_lost(gone.push(p), a, c),
        stays_lost(a, c),
{
    let now = gone.push(p);
    assert forall|i: int| #[trigger] now.contains(i) <==> lost(a, c, i) by {
        assert(lost(b, c, i) <==> i == p);
        assert(gone.contains(i) <==> lost(a, b, i));
        if now.contains(i) {
            let k = now.index_of(i);
            if k < gone.len() {
                assert(gone[k] == i);
                assert(gone.contains(i));
            }
        }
        if gone.contains(i) {
            let k = gone.index_of(i);
            assert(now[k] == i);
            assert(c.pages[i].refs == 0);
        }
        if i == p {
            assert(now[gone.len() as int] == i);
            assert(lost(b, c, p));
            assert(a.pages[p].refs == 0 ==> b.pages[p].refs == 0);
        }
    }
    assert forall|i: int| 0 <= i < a.pages.len() && a.pages[i].refs
        == 0 implies #[trigger] c.pages[i].refs == 0 by {
        assert(b.pages[i].refs == 0);
    }
    assert forall|j: int, k: int| 0 <= j < now.len() && 0 <= k < now.len() && j != k implies now[j]
        != now[k] by {
        if j < gone.len() {
            assert(gone.contains(gone[j]));
        }
        if k < gone.len() {
            assert(gone.contains(gone[k]));
        }
    }
}

/// No further page has lost its last holder.
proof fn lemma_lost_same(gone: Seq<int>, a: StoreView, b: StoreView, c: StoreView)
    requires
        lists_lost(gone, a, b),
        a.pages.len() <= b.pages.len(),
        forall|i: int| !(#[trigger] lost(b, c, i)),
        stays_lost(a, b),
        stays_lost(b, c),
    ensures
        lists_lost(gone, a, c),
        stays_lost(a, c),
{
    assert forall|i: int| #[trigger] gone.contains(i) <==> lost(a, c, i) by {
        assert(!lost(b, c, i));
        if lost(a, b, i) {
            assert(c.pages[i].refs == 0);
        }
    }
    assert forall|i: int| 0 <= i < a.pages.len() && a.pages[i].refs
        == 0 implies #[trigger] c.pages[i].refs == 0 by {
        assert(b.pages[i].refs == 0);
    }
}

impl PageTable {
    /// Gives every copy-on-write page memory of its own. Tells whether there
    /// was one.
    pub(crate) fn copy_all_cow_pages<T: ICache>(&mut self, store: &mut PageStore, icache: &mut Notified<T>) -> (r: bool)
        requires
            old(store)@.wf(),
            old(self).wf(old(store)@),
        ensures
            final(store)@.wf(),
            final(self).wf(final(store)@),
            final(self).space == old(self).space,
            final(self)@.dom() == old(self)@.dom(),
            forall|n: u64| #[trigger]
                old(self)@.contains_key(n) ==> copied(
                    old(store)@,
                    final(store)@,
                    old(self)@[n],
                    final(self)@[n],
                ),
            frame(old(store)@, final(store)@, one(old(self).space@)),
            r == exists|n: u64| #[trigger] old(self)@.contains_key(n) && is_cow(old(self)@[n]),
            exists|gone: Seq<int>| #[trigger]
                lists_lost(gone, old(store)@, final(store)@) && final(icache).invalidated() == old(
                    icache,
                ).invalidated() + memory_of(old(store)@, gone),
            lent_since(
                old(store)@,
                final(icache).invalidated(),
                old(icache).invalidated().len() as int,
            ),
    {
        let numbers: Vec<u64> = self.page_numbers();
        let ghost a = store@;
        let ghost before = self@;
        let ghost space = self.space@;
        let ghost log = icache.invalidated();
        proof {
            lemma_frame_refl(a, one(space));
            assert(forall|n: u64| before.contains_key(n) ==> counted_as_before(a, a, before[n]));
        }
        let mut modified: bool = false;
        let ghost mut gone: Seq<int> = Seq::empty();
        assert(log + memory_of(a, gone) =~= log);
        let mut i: usize = 0;
        while i < numbers.len()
            invariant
                0 <= i <= numbers@.len(),
                numbers@.no_duplicates(),
                forall|n: u64| #[trigger] numbers@.contains(n) <==> before.contains_key(n),
                lists_lost(gone, a, store@),
                stays_lost(a, store@),
                icache.invalidated() == log + memory_of(a, gone),
                self.space == old(self).space,
                self.space@ == space,
                a.wf(),
                store@.wf(),
                table_wf(a, space, before),
                self.wf(store@),
                self@.dom() == before.dom(),
                forall|n: u64| #[trigger]
                    numbers@.take(i as int).contains(n) ==> before.contains_key(n) && copied(
                        a,
                        store@,
                        before[n],
                        self@[n],
                    ),
                forall|n: u64|
                    before.contains_key(n) && !numbers@.take(i as int).contains(n)
                        ==> #[trigger] self@[n] == before[n],
                forall|n: u64|
                    before.contains_key(n) && !numbers@.take(i as int).contains(n)
                        ==> #[trigger] counted_as_before(a, store@, before[n]),
                frame(a, store@, one(space)),
                modified == exists|n: u64| #[trigger]
                    numbers@.take(i as int).contains(n) && is_cow(before[n]),
                lent_since(a, icache.invalidated(), log.len() as int),
            decreases numbers.len() - i,
        {
            let n: u64 = numbers[i];
            let ghost mid = store@;
            let ghost mid_table = self@;
            let ghost mid_log = icache.invalidated();
            proof {
                assert(numbers@.contains(n));
                assert(before.contains_key(n));
                if numbers@.take(i as int).contains(n) {
                    let j = choose|j: int| 0 <= j < i && numbers@.take(i as int)[j] == n;
                    assert(numbers@[j] == numbers@[i as int]);
                }
                assert(self@[n] == before[n]);
                lemma_take_push(numbers@, i as int);
            }
            if let Some(entry) = self.table.get(&n) {
                let entry: PageEntry = *entry;
                let was_cow: bool = match entry.source {
                    PageSource::Private { write_protected, .. } => write_protected,
                    _ => false,
                };
                let entry = entry.un_cow(store, icache, self.space, Ghost(self@), Ghost(n));
                self.table.insert(n, entry);
                if was_cow {
                    modified = true;
                }
                proof {
                    lemma_frame_trans(a, mid, store@, one(space));
                    assert(self@.dom() =~= before.dom());
                    assert(entry_ok(a, space, n, before[n]));
                    assert(entry_ok(mid, space, n, before[n]));
                    lemma_entry_stable(a, mid, one(space), space, n, before[n]);
                    assert(counted_as_before(a, mid, before[n]));
                    if is_cow(before[n]) {
                        let p = before[n].source->page as int;
                        assert(page_frame(a, mid, one(space), p));
                        if a.pages[p].holders@.contains(Holder::ZeroPage) {
                            lemma_zero_page_shared(a, p, me(space, n));
                            lemma_zero_page_shared(mid, p, me(space, n));
                        }
                    }
                    assert forall|m: u64|
                        before.contains_key(m) && !numbers@.take(
                            i + 1,
                        ).contains(m) implies #[trigger] counted_as_before(
                        a,
                        store@,
                        before[m],
                    ) by {
                        assert(!numbers@.take(i as int).contains(m) && m != n);
                        assert(counted_as_before(a, mid, before[m]));
                        assert(mid_table[m] == before[m]);
                        assert(mid_table.contains_key(m));
                        assert(entry_ok(a, space, m, before[m]));
                        assert(entry_ok(mid, space, m, before[m]));
                        if is_cow(before[m]) {
                            let p = before[m].source->page as int;
                            assert(page_frame(a, mid, one(space), p));
                            assert(mid.pages[p].holders@.contains(me(space, m)));
                            if mid.pages[p].holders@.contains(me(space, n)) {
                                assert(mid.pages[p].holders@.contains(Holder::ZeroPage));
                            }
                        }
                    }
                    assert forall|m: u64| #[trigger] numbers@.take(i + 1).contains(m) implies before.contains_key(
                        m,
                    ) && copied(a, store@, before[m], self@[m]) by {
                        if m != n {
                            assert(numbers@.take(i as int).contains(m));
                            assert(mid_table.contains_key(m));
                            assert(self@.contains_key(m));
                            lemma_entry_stable(mid, store@, one(space), space, m, self@[m]);
                            if is_cow(before[m]) {
                                let own = self@[m].source->page;
                                assert(page_frame(mid, store@, one(space), own as int));
                            }
                        }
                    }
                    let more = uncow_log(mid, before[n]);
                    if more.len() > 0 {
                        let p = before[n].source->page as int;
                        assert(lost(mid, store@, p));
                        assert(page_frame(a, mid, one(space), p));
                        assert(!gone.contains(p));
                        let now = gone.push(p);
                        lemma_lost_more(gone, a, mid, store@, p);
                        assert(memory_of(a, now) =~= memory_of(a, gone).push(
                            a.pages[p].allocated_page,
                        ));
                        assert(icache.invalidated() =~= log + memory_of(a, now));
                        gone = now;
                    } else {
                        lemma_lost_same(gone, a, mid, store@);
                        assert(icache.invalidated() =~= mid_log);
                    }
                    if was_cow {
                        assert(numbers@.take(i + 1).contains(n) && is_cow(before[n]));
                    } else if exists|m: u64| #[trigger]
                        numbers@.take(i as int).contains(m) && is_cow(before[m]) {
                        let m = choose|m: u64| #[trigger]
                            numbers@.take(i as int).contains(m) && is_cow(before[m]);
                        assert(numbers@.take(i + 1).contains(m));
                    }
                    assert(lent_since(a, icache.invalidated(), log.len() as int)) by {
                        assert forall|k: int|
                            #![trigger icache.invalidated()[k]]
                            log.len() <= k < icache.invalidated().len() implies icache.invalidated()[k].index
                            < a.host.len() && a.host[icache.invalidated()[k].index as int].lent by {
                            if k < mid_log.len() {
                                assert(icache.invalidated()[k] == mid_log[k]);
                            } else {
                                let p = before[n].source->page;
                                assert(mid.page_ok(p as int));
                                assert(page_frame(a, mid, one(space), p as int));
                                assert(a.page_ok(p as int));
                            }
                        }
                    }
                }
            }
            i += 1;
        }
        assert(numbers@.take(numbers@.len() as int) =~= numbers@);
        proof {
            assert forall|n: u64| #[trigger] before.contains_key(n) implies copied(
                a,
                store@,
                before[n],
                self@[n],
            ) by {
                assert(numbers@.contains(n));
            }
            if exists|n: u64| #[trigger] before.contains_key(n) && is_cow(before[n]) {
                let n = choose|n: u64| #[trigger] before.contains_key(n) && is_cow(before[n]);
                assert(numbers@.contains(n));
            }
            if exists|n: u64| #[trigger] numbers@.contains(n) && is_cow(before[n]) {
                let n = choose|n: u64| #[trigger] numbers@.contains(n) && is_cow(before[n]);
                assert(before.contains_key(n));
            }
        }
        modified
    }
}

/// The page whose bytes an entry shows, if there is one.
pub open spec fn backing_of(st: StoreView, e: PageEntry) -> Option<usize> {
    match e.source {
        PageSource::Shared(b) => Some(b),
        PageSource::Private { page: b, .. } => Some(b),
        PageSource::Object { slot, .. } => st.slots[slot as int].page,
    }
}

/// The state of a walk over a page table that flushes dirty pages.
#[verifier::ext_equal]
pub struct FlushState {
    pub store: StoreView,
    pub log: Seq<PagePointer>,
    /// The slots whose pages have to be written back.
    pub requests: Seq<usize>,
}

/// Flushing one entry: a page with pending work has its epoch opened, what
/// was cached of it invalidated and the epoch closed; a page of a shared
/// object is then to be written back.
pub open spec fn flush_step(s: FlushState, e: PageEntry) -> FlushState {
    match backing_of(s.store, e) {
        None => s,
        Some(b) => {
            let page = s.store.pages[b as int];
            if page.dirty_page_flags == 0 {
                s
            } else {
                FlushState {
                    store: s.store.set_dirty_flags(
                        b as int,
                        without_epoch(with_epoch(page.dirty_page_flags)),
                    ),
                    log: s.log.push(page.allocated_page),
                    requests: match e.source {
                        PageSource::Object { slot, shared: true } => s.requests.push(slot),
                        _ => s.requests,
                    },
                }
            }
        },
    }
}

/// Flushing the entries of the first `k` pages of `order`.
pub open spec fn flush_fold(
    s: FlushState,
    table: Map<u64, PageEntry>,
    order: Seq<u64>,
    k: nat,
) -> FlushState
    decreases k,
{
    if k == 0 {
        s
    } else {
        flush_step(flush_fold(s, table, order, (k - 1) as nat), table[order[k - 1]])
    }
}

/// The slots among the first `k` pages of `order` that were not faulted in.
pub open spec fn init_fold(st: StoreView, table: Map<u64, PageEntry>, order: Seq<u64>, k: nat) -> Seq<
    usize,
>
    decreases k,
{
    if k == 0 {
        seq![]
    } else {
        let done = init_fold(st, table, order, (k - 1) as nat);
        match table[order[k - 1]].source {
            PageSource::Object { slot, .. } => if st.slots[slot as int].page is None {
                done.push(slot)
            } else {
                done
            },
            _ => done,
        }
    }
}

/// `order` lists every mapped page once.
pub open spec fn lists_pages(order: Seq<u64>, table: Map<u64, PageEntry>) -> bool {
    &&& order.no_duplicates()
    &&& forall|n: u64| #[trigger] order.contains(n) <==> table.contains_key(n)
}

/// A store that differs in dirty states alone.
pub open spec fn same_but_dirty(a: StoreView, b: StoreView) -> bool {
    &&& b.host == a.host
    &&& b.slots == a.slots
    &&& b.zero_page == a.zero_page
    &&& b.pages.len() == a.pages.len()
    &&& forall|i: int|
        #![trigger b.pages[i]]
        0 <= i < a.pages.len() ==> b.pages[i].allocated_page == a.pages[i].allocated_page
            && b.pages[i].should_dealloc == a.pages[i].should_dealloc && b.pages[i].refs
            == a.pages[i].refs && b.pages[i].holders == a.pages[i].holders
}

/// Page tables do not depend on dirty states.
pub proof fn lemma_dirty_only(a: StoreView, b: StoreView, space: nat, table: Map<u64, PageEntry>)
    requires
        a.wf(),
        same_but_dirty(a, b),
        table_wf(a, space, table),
    ensures
        table_wf(b, space, table),
        forall|n: int| #[trigger] resolve(b, table, n) == resolve(a, table, n),
{
    assert forall|n: u64| #[trigger] table.contains_key(n) implies entry_ok(
        b,
        space,
        n,
        table[n],
    ) by {
        assert(entry_ok(a, space, n, table[n]));
        if let PageSource::Object { slot, .. } = table[n].source {
            assert(a.slot_ok(slot as int));
        }
    }
    assert forall|i: int, n: u64|
        0 <= i < b.pages.len() && #[trigger] b.pages[i].holders@.contains(
            me(space, n),
        ) implies table.contains_key(n) && refers_page(table[n], i) by {
        assert(a.pages[i].holders@.contains(me(space, n)));
    }
    assert forall|n: int| #[trigger] resolve(b, table, n) == resolve(a, table, n) by {
        if 0 <= n <= u64::MAX && table.contains_key(n as u64) {
            assert(entry_ok(a, space, n as u64, table[n as u64]));
            if let PageSource::Object { slot, .. } = table[n as u64].source {
                assert(a.slot_ok(slot as int));
            }
        }
    }
}

impl PageEntry {
    /// Flushes the page of the entry; gives the slot that has to be written
    /// back, if any.
    pub(crate) fn flush<T: ICache>(
        &self,
        store: &mut PageStore,
        icache: &mut Notified<T>,
        space: Ghost<nat>,
        n: Ghost<u64>,
        requests: Ghost<Seq<usize>>,
    ) -> (r: Option<usize>)
        requires
            old(store)@.wf(),
            entry_ok(old(store)@, space@, n@, *self),
        ensures
            final(store)@.wf(),
            same_but_dirty(old(store)@, final(store)@),
            ({
                let before = FlushState {
                    store: old(store)@,
                    log: old(icache).invalidated(),
                    requests: requests@,
                };
                let after = flush_step(before, *self);
                &&& final(store)@ == after.store
                &&& final(icache).invalidated() == after.log
                &&& after.requests == (match r {
                    Some(slot) => requests@.push(slot),
                    None => requests@,
                })
            }),
    {
        let page: usize = match self.source {
            PageSource::Shared(page) => page,
            PageSource::Private { page, .. } => page,
            PageSource::Object { slot, .. } => {
                assert(store@.slot_ok(slot as int));
                match store.slots[slot].page {
                    Some(page) => page,
                    None => {
                        return None;
                    },
                }
            },
        };
        assert(store@.page_ok(page as int));
        let pending: u8 = match open_epoch(store.pages[page].dirty_page_flags) {
            Some(flags) => flags,
            None => {
                return None;
            },
        };
        icache.invalidate(store.pages[page].allocated_page);
        let (flags, was_open) = close_epoch(pending);
        store.pages[page].dirty_page_flags = flags;
        assert(store@ =~= old(store)@.set_dirty_flags(page as int, flags));
        match self.source {
            PageSource::Object { slot, shared } => {
                if was_open && shared {
                    Some(slot)
                } else {
                    None
                }
            },
            _ => None,
        }
    }
}

impl PageTable {
    /// Flushes every dirty page; gives the slots that have to be written
    /// back. The pages are visited in no particular order.
    pub(crate) fn flush_pages<T: ICache>(&self, store: &mut PageStore, icache: &mut Notified<T>) -> (r: Vec<usize>)
        requires
            old(store)@.wf(),
            self.wf(old(store)@),
        ensures
            final(store)@.wf(),
            self.wf(final(store)@),
            same_but_dirty(old(store)@, final(store)@),
            exists|order: Seq<u64>| #[trigger]
                lists_pages(order, self@) && flush_fold(
                    FlushState {
                        store: old(store)@,
                        log: old(icache).invalidated(),
                        requests: seq![],
                    },
                    self@,
                    order,
                    order.len(),
                ) == (FlushState {
                    store: final(store)@,
                    log: final(icache).invalidated(),
                    requests: r@,
                }),
    {
        let numbers: Vec<u64> = self.page_numbers();
        let ghost start = FlushState {
            store: store@,
            log: icache.invalidated(),
            requests: seq![],
        };
        let mut requests: Vec<usize> = Vec::new();
        let mut i: usize = 0;
        assert(requests@ =~= start.requests);
        while i < numbers.len()
            invariant
                0 <= i <= numbers@.len(),
                lists_pages(numbers@, self@),
                store@.wf(),
                self.wf(store@),
                same_but_dirty(start.store, store@),
                flush_fold(start, self@, numbers@, i as nat) == (FlushState {
                    store: store@,
                    log: icache.invalidated(),
                    requests: requests@,
                }),
            decreases numbers.len() - i,
        {
            let n: u64 = numbers[i];
            let ghost mid = store@;
            assert(numbers@.contains(n));
            assert(self@.contains_key(n));
            if let Some(entry) = self.table.get(&n) {
                let request: Option<usize> = entry.flush(
                    store,
                    icache,
                    self.space,
                    Ghost(n),
                    Ghost(requests@),
                );
                if let Some(slot) = request {
                    requests.push(slot);
                }
                proof {
                    lemma_dirty_only(mid, store@, self.space@, self@);
                }
            }
            i += 1;
        }
        assert(lists_pages(numbers@, self@));
        requests
    }

    /// The slots that were not faulted in yet, in no particular order.
    pub fn absent_slots(&self, store: &PageStore) -> (r: Vec<usize>)
        requires
            store@.wf(),
            self.wf(store@),
        ensures
            exists|order: Seq<u64>| #[trigger]
                lists_pages(order, self@) && r@ == init_fold(store@, self@, order, order.len()),
    {
        let numbers: Vec<u64> = self.page_numbers();
        let mut absent: Vec<usize> = Vec::new();
        let mut i: usize = 0;
        while i < numbers.len()
            invariant
                0 <= i <= numbers@.len(),
                lists_pages(numbers@, self@),
                store@.wf(),
                self.wf(store@),
                absent@ == init_fold(store@, self@, numbers@, i as nat),
            decreases numbers.len() - i,
        {
            let n: u64 = numbers[i];
            assert(numbers@.contains(n));
            assert(self@.contains_key(n));
            if let Some(entry) = self.table.get(&n) {
                assert(entry_ok(store@, self.space@, n, *entry));
                if let PageSource::Object { slot, .. } = entry.source {
                    if store.slots[slot].page.is_none() {
                        absent.push(slot);
                    }
                }
            }
            i += 1;
        }
        assert(lists_pages(numbers@, self@));
        absent
    }
}

} // verus!
