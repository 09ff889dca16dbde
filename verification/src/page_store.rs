//! Host memory and the reference-counted pages and object slots built on it.
//!
//! A [`MemoryBackedPage`] names one page of host memory, remembers whether
//! that memory has to be given back when the page is dropped, and keeps the
//! dirty state of the page. Page tables, object slots and the fabric hold
//! pages and slots by index; a page or a slot lives as long as somebody
//! holds it.
use vstd::prelude::*;
use crate::icache::{ICache, Notified};
use crate::dirty::{set_dirty, with_dirty};
use crate::memops::{copy_nonoverlapping_host_to_vm, copy_nonoverlapping_vm_to_host, window};
use crate::memory::{Page, PagePointer, MAX_PAGE_NUMBER, PAGE_SIZE};

verus! {

/// Somebody who keeps a page or an object slot alive.
pub enum Holder {
    /// The entry of guest page `page` in the page table of `space`.
    Table { space: nat, page: u64 },
    /// The fabric, which keeps the shared zero page.
    ZeroPage,
    /// An object slot, which keeps its resident page.
    Slot { slot: usize },
    /// The worker, which keeps the slot it is working on.
    Worker,
}

/// One page of host memory. `bytes` is empty once the memory was given back.
pub struct HostPage {
    pub bytes: Vec<u8>,
    /// The memory belongs to the embedder and is never given back.
    pub lent: bool,
}

/// A page of host memory that can be mapped into address spaces.
pub struct MemoryBackedPage {
    pub allocated_page: PagePointer,
    pub should_dealloc: bool,
    pub dirty_page_flags: u8,
    /// Number of holders; it sticks at the largest value once it got there.
    pub refs: u64,
    pub holders: Ghost<Set<Holder>>,
}

/// The state of one page of a memory object: the object, the page of it, and
/// the resident copy once the page was faulted in.
pub struct ObjectSlot {
    pub page: Option<usize>,
    pub object: u64,
    pub page_offset: u64,
    /// Number of holders; it sticks at the largest value once it got there.
    pub refs: u64,
    pub holders: Ghost<Set<Holder>>,
}

/// All host memory of a machine with its backed pages and object slots.
pub struct PageStore {
    pub host: Vec<HostPage>,
    pub pages: Vec<MemoryBackedPage>,
    pub slots: Vec<ObjectSlot>,
    pub zero_page: Option<usize>,
}

#[verifier::ext_equal]
pub struct HostPageView {
    pub bytes: Seq<u8>,
    pub lent: bool,
}

/// The mathematical model of a [`PageStore`].
#[verifier::ext_equal]
pub struct StoreView {
    pub host: Seq<HostPageView>,
    pub pages: Seq<MemoryBackedPage>,
    pub slots: Seq<ObjectSlot>,
    pub zero_page: Option<usize>,
}

impl View for HostPage {
    type V = HostPageView;

    open spec fn view(&self) -> HostPageView {
        HostPageView { bytes: self.bytes@, lent: self.lent }
    }
}

impl View for PageStore {
    type V = StoreView;

    open spec fn view(&self) -> StoreView {
        StoreView {
            host: Seq::new(self.host@.len(), |i: int| self.host@[i]@),
            pages: self.pages@,
            slots: self.slots@,
            zero_page: self.zero_page,
        }
    }
}

/// The contents of a page of zeros.
pub open spec fn zero_bytes() -> Seq<u8> {
    Seq::new(4096, |i: int| 0u8)
}

/// One more holder, on a count that sticks at its largest value.
pub open spec fn count_up(refs: u64) -> u64 {
    if refs == u64::MAX {
        refs
    } else {
        (refs + 1) as u64
    }
}

/// One holder less, on a count that sticks at its largest value.
pub open spec fn count_down(refs: u64) -> u64 {
    if refs == u64::MAX {
        refs
    } else {
        (refs - 1) as u64
    }
}

/// The count of a page or a slot tells how many holders it has.
pub open spec fn counts(refs: u64, holders: Set<Holder>) -> bool {
    &&& holders.finite()
    &&& refs == u64::MAX || refs == holders.len()
}

impl StoreView {
    pub open spec fn host_ok(self, h: int) -> bool {
        ||| self.host[h].bytes.len() == 4096
        ||| self.host[h].bytes.len() == 0 && !self.host[h].lent
    }

    pub open spec fn page_ok(self, b: int) -> bool {
        let page = self.pages[b];
        let h = page.allocated_page.index as int;
        &&& h < self.host.len()
        &&& counts(page.refs, page.holders@)
        &&& page.should_dealloc == !self.host[h].lent
        &&& page.refs > 0 ==> self.host[h].bytes.len() == 4096
        &&& page.dirty_page_flags <= 3
        &&& page.holders@.contains(Holder::ZeroPage) ==> self.zero_page == Some(b as usize)
    }

    pub open spec fn slot_ok(self, s: int) -> bool {
        let slot = self.slots[s];
        &&& counts(slot.refs, slot.holders@)
        &&& slot.page_offset <= MAX_PAGE_NUMBER
        &&& !slot.holders@.contains(Holder::ZeroPage)
        &&& slot.page matches Some(b) ==> {
            &&& b < self.pages.len()
            &&& self.pages[b as int].holders@.contains(Holder::Slot { slot: s as usize })
            &&& !self.pages[b as int].holders@.contains(Holder::ZeroPage)
        }
    }

    /// The invariant of a page store: counts are right, a page that is held
    /// has its memory, no memory is owned twice, a slot holds its resident
    /// page, and the zero page reads as zeros.
    pub open spec fn wf(self) -> bool {
        &&& self.host.len() <= usize::MAX
        &&& self.pages.len() <= usize::MAX
        &&& self.slots.len() <= usize::MAX
        &&& forall|h: int| #![trigger self.host[h]] 0 <= h < self.host.len() ==> self.host_ok(h)
        &&& forall|b: int| #![trigger self.pages[b]] 0 <= b < self.pages.len() ==> self.page_ok(b)
        &&& forall|s: int| #![trigger self.slots[s]] 0 <= s < self.slots.len() ==> self.slot_ok(s)
        &&& forall|b: int, c: int|
            #![trigger self.pages[b], self.pages[c]]
            0 <= b < c < self.pages.len() && self.pages[b].should_dealloc
                && self.pages[c].should_dealloc ==> self.pages[b].allocated_page
                != self.pages[c].allocated_page
        &&& self.zero_page matches Some(z) ==> {
            &&& z < self.pages.len()
            &&& self.pages[z as int].should_dealloc
            &&& self.pages[z as int].holders@.contains(Holder::ZeroPage)
            &&& self.bytes(z as int) == zero_bytes()
        }
    }

    /// The contents of backed page `b`.
    pub open spec fn bytes(self, b: int) -> Seq<u8> {
        self.host[self.pages[b].allocated_page.index as int].bytes
    }

    /// Lets `holder` hold page `b`.
    pub open spec fn hold_page(self, b: int, holder: Holder) -> Self {
        let page = self.pages[b];
        StoreView {
            pages: self.pages.update(
                b,
                MemoryBackedPage {
                    refs: count_up(page.refs),
                    holders: Ghost(page.holders@.insert(holder)),
                    ..page
                },
            ),
            ..self
        }
    }

    /// Whether letting go of page `b` drops it.
    pub open spec fn drops_page(self, b: int) -> bool {
        self.pages[b].refs == 1
    }

    /// Takes page `b` away from `holder`. The last holder takes the page's
    /// own memory along.
    pub open spec fn release_page(self, b: int, holder: Holder) -> Self {
        let page = self.pages[b];
        let h = page.allocated_page.index as int;
        StoreView {
            host: if self.drops_page(b) && page.should_dealloc {
                self.host.update(h, HostPageView { bytes: Seq::empty(), lent: false })
            } else {
                self.host
            },
            pages: self.pages.update(
                b,
                MemoryBackedPage {
                    refs: count_down(page.refs),
                    holders: Ghost(page.holders@.remove(holder)),
                    ..page
                },
            ),
            ..self
        }
    }

    /// The invalidations that come with letting go of page `b`.
    pub open spec fn release_page_log(self, b: int) -> Seq<PagePointer> {
        if self.drops_page(b) {
            seq![self.pages[b].allocated_page]
        } else {
            seq![]
        }
    }

    /// A new page with memory of its own that holds `bytes`.
    pub open spec fn alloc_page(self, bytes: Seq<u8>, holder: Holder) -> Self {
        StoreView {
            host: self.host.push(HostPageView { bytes, lent: false }),
            pages: self.pages.push(
                MemoryBackedPage {
                    allocated_page: PagePointer { index: self.host.len() as usize },
                    should_dealloc: true,
                    dirty_page_flags: 0,
                    refs: 1,
                    holders: Ghost(Set::empty().insert(holder)),
                },
            ),
            ..self
        }
    }

    /// A new page over memory of the embedder.
    pub open spec fn extern_page(self, ptr: PagePointer, holder: Holder) -> Self {
        StoreView {
            pages: self.pages.push(
                MemoryBackedPage {
                    allocated_page: ptr,
                    should_dealloc: false,
                    dirty_page_flags: 0,
                    refs: 1,
                    holders: Ghost(Set::empty().insert(holder)),
                },
            ),
            ..self
        }
    }

    /// The store once the zero page exists.
    pub open spec fn with_zero_page(self) -> Self {
        if self.zero_page is Some {
            self
        } else {
            StoreView {
                zero_page: Some(self.pages.len() as usize),
                ..self.alloc_page(zero_bytes(), Holder::ZeroPage)
            }
        }
    }

    /// A new slot for page `page_offset` of `object`, not resident yet.
    pub open spec fn new_slot(self, object: u64, page_offset: u64, holder: Holder) -> Self {
        StoreView {
            slots: self.slots.push(
                ObjectSlot {
                    page: None,
                    object,
                    page_offset,
                    refs: 1,
                    holders: Ghost(Set::empty().insert(holder)),
                },
            ),
            ..self
        }
    }

    /// Lets `holder` hold slot `s`.
    pub open spec fn hold_slot(self, s: int, holder: Holder) -> Self {
        let slot = self.slots[s];
        StoreView {
            slots: self.slots.update(
                s,
                ObjectSlot {
                    refs: count_up(slot.refs),
                    holders: Ghost(slot.holders@.insert(holder)),
                    ..slot
                },
            ),
            ..self
        }
    }

    /// Slot `s` without `holder`, its page left in place.
    pub open spec fn unhold_slot(self, s: int, holder: Holder) -> Self {
        let slot = self.slots[s];
        StoreView {
            slots: self.slots.update(
                s,
                ObjectSlot {
                    page: if slot.refs == 1 { None } else { slot.page },
                    refs: count_down(slot.refs),
                    holders: Ghost(slot.holders@.remove(holder)),
                    ..slot
                },
            ),
            ..self
        }
    }

    /// Takes slot `s` away from `holder`. The last holder takes the slot's
    /// hold on its resident page along.
    pub open spec fn release_slot(self, s: int, holder: Holder) -> Self {
        let rest = self.unhold_slot(s, holder);
        if self.slots[s].refs == 1 && self.slots[s].page is Some {
            rest.release_page(self.slots[s].page->0 as int, Holder::Slot { slot: s as usize })
        } else {
            rest
        }
    }

    /// The invalidations that come with letting go of slot `s`.
    pub open spec fn release_slot_log(self, s: int) -> Seq<PagePointer> {
        if self.slots[s].refs == 1 && self.slots[s].page is Some {
            self.release_page_log(self.slots[s].page->0 as int)
        } else {
            seq![]
        }
    }

    /// Makes `bytes` the resident page of slot `s`.
    pub open spec fn fill_slot(self, s: int, bytes: Seq<u8>) -> Self {
        let filled = self.alloc_page(bytes, Holder::Slot { slot: s as usize });
        StoreView {
            slots: self.slots.update(
                s,
                ObjectSlot { page: Some(self.pages.len() as usize), ..self.slots[s] },
            ),
            ..filled
        }
    }

    /// Replaces the bytes of host page `h` from `offset` on by `data`.
    pub open spec fn write(self, h: int, offset: int, data: Seq<u8>) -> Self {
        let page = self.host[h];
        StoreView {
            host: self.host.update(h, HostPageView { bytes: splice(page.bytes, offset, data), ..page }),
            ..self
        }
    }

    /// Sets the dirty state of page `b`.
    pub open spec fn set_dirty_flags(self, b: int, flags: u8) -> Self {
        StoreView {
            pages: self.pages.update(
                b,
                MemoryBackedPage { dirty_page_flags: flags, ..self.pages[b] },
            ),
            ..self
        }
    }
}

impl StoreView {
    /// Host page `h` has its memory and is not the zero page's.
    pub open spec fn writable(self, h: int) -> bool {
        &&& 0 <= h < self.host.len()
        &&& self.host[h].bytes.len() == 4096
        &&& self.zero_page matches Some(z) ==> self.pages[z as int].allocated_page.index != h
    }

    /// Records a store to `page`, where it has to be recorded.
    pub open spec fn mark_dirty(self, page: Page) -> Self {
        if page.ptr.flags.spec_must_dirty() {
            self.set_dirty_flags(
                page.backing as int,
                with_dirty(self.pages[page.backing as int].dirty_page_flags),
            )
        } else {
            self
        }
    }
}

/// `bytes` with `data` in place of what stood from `offset` on.
pub open spec fn splice(bytes: Seq<u8>, offset: int, data: Seq<u8>) -> Seq<u8> {
    Seq::new(
        bytes.len(),
        |i: int| if offset <= i < offset + data.len() { data[i - offset] } else { bytes[i] },
    )
}

/// Writing to a page other than the zero page keeps the store valid.
pub(crate) proof fn lemma_write(a: StoreView, b: StoreView, h: int, offset: int, data: Seq<u8>)
    requires
        a.wf(),
        a.writable(h),
        b.host.len() == a.host.len(),
        b.pages == a.pages,
        b.slots == a.slots,
        b.zero_page == a.zero_page,
        b.host[h].lent == a.host[h].lent,
        b.host[h].bytes == splice(a.host[h].bytes, offset, data),
        forall|k: int| #![trigger b.host[k]] 0 <= k < a.host.len() && k != h ==> b.host[k] == a.host[k],
    ensures
        b.wf(),
        b == a.write(h, offset, data),
{
    assert(b =~= a.write(h, offset, data));
    assert forall|k: int| #![trigger b.host[k]] 0 <= k < b.host.len() implies b.host_ok(k) by {
        assert(a.host_ok(k));
    }
    assert forall|i: int| #![trigger b.pages[i]] 0 <= i < b.pages.len() implies b.page_ok(i) by {
        assert(a.page_ok(i));
    }
    assert forall|s: int| #![trigger b.slots[s]] 0 <= s < b.slots.len() implies b.slot_ok(s) by {
        assert(a.slot_ok(s));
    }
}

impl PageStore {
    /// A store without any memory.
    pub fn new() -> (r: Self)
        ensures
            r@ == (StoreView { host: seq![], pages: seq![], slots: seq![], zero_page: None }),
            r@.wf(),
    {
        PageStore { host: Vec::new(), pages: Vec::new(), slots: Vec::new(), zero_page: None }
    }

    /// Puts a page of the embedder's memory at the machine's disposal.
    pub fn lend(&mut self, bytes: Vec<u8>) -> (r: PagePointer)
        requires
            old(self)@.wf(),
            bytes@.len() == PAGE_SIZE,
        ensures
            final(self)@.wf(),
            r.index == old(self)@.host.len(),
            final(self)@ == (StoreView {
                host: old(self)@.host.push(HostPageView { bytes: bytes@, lent: true }),
                ..old(self)@
            }),
    {
        let index: usize = self.host.len();
        self.host.push(HostPage { bytes, lent: true });
        assert(self@.host =~= old(self)@.host.push(HostPageView { bytes: bytes@, lent: true }));
        assert(self.host.len() == self@.host.len());
        PagePointer { index }
    }

    /// Lets `holder` hold page `b`.
    pub(crate) fn hold_page(&mut self, b: usize, holder: Ghost<Holder>)
        requires
            old(self)@.wf(),
            b < old(self)@.pages.len(),
            old(self)@.pages[b as int].refs > 0,
            !old(self)@.pages[b as int].holders@.contains(holder@),
            holder@ != Holder::ZeroPage,
        ensures
            final(self)@.wf(),
            final(self)@ == old(self)@.hold_page(b as int, holder@),
    {
        let refs: u64 = self.pages[b].refs;
        if refs != u64::MAX {
            self.pages[b].refs = refs + 1;
        }
        self.pages[b].holders = Ghost(self.pages[b as int].holders@.insert(holder@));
        assert(self@ =~= old(self)@.hold_page(b as int, holder@));
    }

    /// Takes page `b` away from `holder`. Dropping the last holder gives the
    /// page's own memory back and invalidates what was cached of it.
    pub(crate) fn release_page<T: ICache>(&mut self, b: usize, holder: Ghost<Holder>, icache: &mut Notified<T>)
        requires
            old(self)@.wf(),
            b < old(self)@.pages.len(),
            old(self)@.pages[b as int].holders@.contains(holder@),
            holder@ != Holder::ZeroPage,
            holder@ matches Holder::Slot { slot } ==> slot < old(self)@.slots.len()
                && old(self)@.slots[slot as int].page != Some(b),
        ensures
            final(self)@.wf(),
            final(self)@ == old(self)@.release_page(b as int, holder@),
            final(icache).invalidated() == old(icache).invalidated()
                + old(self)@.release_page_log(b as int),
    {
        let refs: u64 = self.pages[b].refs;
        let ptr: PagePointer = self.pages[b].allocated_page;
        let ghost holders = self.pages[b as int].holders@;
        proof {
            assert(old(self)@.page_ok(b as int));
            if refs == 1 {
                // the only holder there is
                assert(holders.remove(holder@).len() == 0);
                assert forall|h: Holder| holders.contains(h) implies h == holder@ by {
                    if h != holder@ {
                        assert(holders.remove(holder@).contains(h));
                    }
                }
            }
        }
        self.pages[b].holders = Ghost(self.pages[b as int].holders@.remove(holder@));
        if refs != u64::MAX {
            self.pages[b].refs = refs - 1;
            if refs == 1 {
                // the memory stays in place while the cache lets go of it, so
                // that no stale translation can outlive the page
                icache.invalidate(ptr);
                if self.pages[b].should_dealloc {
                    self.host[ptr.index] = HostPage { bytes: Vec::new(), lent: false };
                }
            }
        }
        assert(self@ =~= old(self)@.release_page(b as int, holder@));
        assert(
            icache.invalidated() =~= old(icache).invalidated() + old(self)@.release_page_log(b as int)
        );
    }

    /// A new page with memory of its own that holds `bytes`.
    pub(crate) fn alloc_page(&mut self, bytes: Vec<u8>, holder: Ghost<Holder>) -> (b: usize)
        requires
            old(self)@.wf(),
            bytes@.len() == PAGE_SIZE,
            holder@ != Holder::ZeroPage,
        ensures
            final(self)@.wf(),
            b == old(self)@.pages.len(),
            final(self)@ == old(self)@.alloc_page(bytes@, holder@),
    {
        let b: usize = self.pages.len();
        let index: usize = self.host.len();
        self.host.push(HostPage { bytes, lent: false });
        self.pages.push(
            MemoryBackedPage {
                allocated_page: PagePointer { index },
                should_dealloc: true,
                dirty_page_flags: 0,
                refs: 1,
                holders: Ghost(Set::empty().insert(holder@)),
            },
        );
        assert(self@ =~= old(self)@.alloc_page(bytes@, holder@));
        assert(self.host.len() == self@.host.len());
        assert(self.pages.len() == self@.pages.len());
        b
    }

    /// A new page with memory of its own that reads as zeros.
    pub(crate) fn alloc_zeroed(&mut self, holder: Ghost<Holder>) -> (b: usize)
        requires
            old(self)@.wf(),
            holder@ != Holder::ZeroPage,
        ensures
            final(self)@.wf(),
            b == old(self)@.pages.len(),
            final(self)@ == old(self)@.alloc_page(zero_bytes(), holder@),
    {
        let bytes: Vec<u8> = vec![0u8; PAGE_SIZE];
        assert(bytes@ =~= zero_bytes());
        self.alloc_page(bytes, holder)
    }

    /// A new page with memory of its own that holds a copy of page `b`. The
    /// zero page needs no copying.
    pub(crate) fn clone_page(&mut self, b: usize, holder: Ghost<Holder>) -> (r: usize)
        requires
            old(self)@.wf(),
            b < old(self)@.pages.len(),
            old(self)@.pages[b as int].refs > 0,
            holder@ != Holder::ZeroPage,
        ensures
            final(self)@.wf(),
            r == old(self)@.pages.len(),
            final(self)@ == old(self)@.alloc_page(old(self)@.bytes(b as int), holder@),
    {
        if let Some(z) = self.zero_page {
            if z == b {
                return self.alloc_zeroed(holder);
            }
        }
        let bytes: Vec<u8> = self.copy_page_shared_to_exclusive(b);
        self.alloc_page(bytes, holder)
    }

    /// The bytes of page `b`.
    pub fn copy_page_shared_to_exclusive(&self, b: usize) -> (r: Vec<u8>)
        requires
            self@.wf(),
            b < self@.pages.len(),
            self@.pages[b as int].refs > 0,
        ensures
            r@ == self@.bytes(b as int),
    {
        let mut bytes: Vec<u8> = vec![0u8; PAGE_SIZE];
        assert(self@.page_ok(b as int));
        let ptr: PagePointer = self.pages[b].allocated_page;
        let page: &Vec<u8> = &self.host[ptr.index].bytes;
        assert(page@ == self@.host[ptr.index as int].bytes);
        copy_nonoverlapping_vm_to_host(page, 0, bytes.as_mut_slice(), 0, PAGE_SIZE);
        assert(bytes@ =~= page@);
        bytes
    }

    /// A new page over memory of the embedder.
    pub(crate) fn extern_page(&mut self, ptr: PagePointer, holder: Ghost<Holder>) -> (b: usize)
        requires
            old(self)@.wf(),
            ptr.index < old(self)@.host.len(),
            old(self)@.host[ptr.index as int].lent,
            holder@ != Holder::ZeroPage,
        ensures
            final(self)@.wf(),
            b == old(self)@.pages.len(),
            final(self)@ == old(self)@.extern_page(ptr, holder@),
    {
        let b: usize = self.pages.len();
        self.pages.push(
            MemoryBackedPage {
                allocated_page: ptr,
                should_dealloc: false,
                dirty_page_flags: 0,
                refs: 1,
                holders: Ghost(Set::empty().insert(holder@)),
            },
        );
        assert(self@ =~= old(self)@.extern_page(ptr, holder@));
        assert(self.pages.len() == self@.pages.len());
        b
    }

    /// The shared zero page, made on first use.
    pub(crate) fn zero_page(&mut self) -> (b: usize)
        requires
            old(self)@.wf(),
        ensures
            final(self)@.wf(),
            final(self)@ == old(self)@.with_zero_page(),
            final(self)@.zero_page == Some(b),
    {
        match self.zero_page {
            Some(b) => b,
            None => {
                let b: usize = self.pages.len();
                let index: usize = self.host.len();
                let bytes: Vec<u8> = vec![0u8; PAGE_SIZE];
                assert(bytes@ =~= zero_bytes());
                self.host.push(HostPage { bytes, lent: false });
                self.pages.push(
                    MemoryBackedPage {
                        allocated_page: PagePointer { index },
                        should_dealloc: true,
                        dirty_page_flags: 0,
                        refs: 1,
                        holders: Ghost(Set::empty().insert(Holder::ZeroPage)),
                    },
                );
                self.zero_page = Some(b);
                assert(self@ =~= old(self)@.with_zero_page());
                assert(self.host.len() == self@.host.len());
                assert(self.pages.len() == self@.pages.len());
                b
            },
        }
    }

    /// A new slot for page `page_offset` of `object`, not resident yet.
    pub(crate) fn new_slot(&mut self, object: u64, page_offset: u64, holder: Ghost<Holder>) -> (s:
        usize)
        requires
            old(self)@.wf(),
            page_offset <= MAX_PAGE_NUMBER,
            holder@ != Holder::ZeroPage,
        ensures
            final(self)@.wf(),
            s == old(self)@.slots.len(),
            final(self)@ == old(self)@.new_slot(object, page_offset, holder@),
    {
        let s: usize = self.slots.len();
        self.slots.push(
            ObjectSlot {
                page: None,
                object,
                page_offset,
                refs: 1,
                holders: Ghost(Set::empty().insert(holder@)),
            },
        );
        assert(self@ =~= old(self)@.new_slot(object, page_offset, holder@));
        assert(self.slots.len() == self@.slots.len());
        s
    }

    /// Lets `holder` hold slot `s`.
    pub(crate) fn hold_slot(&mut self, s: usize, holder: Ghost<Holder>)
        requires
            old(self)@.wf(),
            s < old(self)@.slots.len(),
            !old(self)@.slots[s as int].holders@.contains(holder@),
            holder@ != Holder::ZeroPage,
        ensures
            final(self)@.wf(),
            final(self)@ == old(self)@.hold_slot(s as int, holder@),
    {
        let refs: u64 = self.slots[s].refs;
        if refs != u64::MAX {
            self.slots[s].refs = refs + 1;
        }
        self.slots[s].holders = Ghost(self.slots[s as int].holders@.insert(holder@));
        assert(self@ =~= old(self)@.hold_slot(s as int, holder@));
    }

    /// Takes slot `s` away from `holder`. Dropping the last holder lets go
    /// of the slot's resident page.
    pub(crate) fn release_slot<T: ICache>(&mut self, s: usize, holder: Ghost<Holder>, icache: &mut Notified<T>)
        requires
            old(self)@.wf(),
            s < old(self)@.slots.len(),
            old(self)@.slots[s as int].holders@.contains(holder@),
        ensures
            final(self)@.wf(),
            final(self)@ == old(self)@.release_slot(s as int, holder@),
            final(icache).invalidated() == old(icache).invalidated()
                + old(self)@.release_slot_log(s as int),
    {
        let refs: u64 = self.slots[s].refs;
        let page: Option<usize> = self.slots[s].page;
        self.slots[s].holders = Ghost(self.slots[s as int].holders@.remove(holder@));
        if refs != u64::MAX {
            self.slots[s].refs = refs - 1;
        }
        if refs == 1 {
            self.slots[s].page = None;
        }
        assert(self@ =~= old(self)@.unhold_slot(s as int, holder@));
        if refs == 1 {
            if let Some(b) = page {
                let ghost mid = self@;
                self.release_page(b, Ghost(Holder::Slot { slot: s }), icache);
                assert(mid.release_page_log(b as int) == old(self)@.release_page_log(b as int));
            }
        }
        assert(
            icache.invalidated() =~= old(icache).invalidated() + old(self)@.release_slot_log(s as int)
        );
    }

    /// Makes `bytes` the resident page of slot `s`.
    pub(crate) fn fill_slot(&mut self, s: usize, bytes: Vec<u8>)
        requires
            old(self)@.wf(),
            s < old(self)@.slots.len(),
            old(self)@.slots[s as int].page is None,
            bytes@.len() == PAGE_SIZE,
        ensures
            final(self)@.wf(),
            final(self)@ == old(self)@.fill_slot(s as int, bytes@),
    {
        let b: usize = self.alloc_page(bytes, Ghost(Holder::Slot { slot: s }));
        self.slots[s].page = Some(b);
        assert(self@ =~= old(self)@.fill_slot(s as int, bytes@));
    }

    /// Copies `count` bytes of `src`, from `at` on, to host page `h`, from
    /// `offset` on.
    pub(crate) fn write_bytes(&mut self, h: usize, offset: usize, src: &[u8], at: usize, count: usize)
        requires
            old(self)@.wf(),
            old(self)@.writable(h as int),
            offset + count <= PAGE_SIZE,
            at + count <= src.len(),
        ensures
            final(self)@.wf(),
            final(self)@ == old(self)@.write(
                h as int,
                offset as int,
                window(src@, at as int, count as int),
            ),
    {
        let page: &mut HostPage = &mut self.host[h];
        assert(page.bytes.len() == page.bytes@.len());
        copy_nonoverlapping_host_to_vm(src, at, &mut page.bytes, offset, count);
        proof {
            lemma_write(
                old(self)@,
                self@,
                h as int,
                offset as int,
                window(src@, at as int, count as int),
            );
        }
    }

    /// Records a store to `page`, where it has to be recorded.
    pub(crate) fn mark_dirty(&mut self, page: Page)
        requires
            old(self)@.wf(),
            page.backing < old(self)@.pages.len(),
        ensures
            final(self)@.wf(),
            final(self)@ == old(self)@.mark_dirty(page),
    {
        assert(self@.page_ok(page.backing as int));
        if page.ptr.flags.must_dirty() {
            let flags: u8 = set_dirty(self.pages[page.backing].dirty_page_flags);
            self.pages[page.backing].dirty_page_flags = flags;
            assert(self@ =~= old(self)@.set_dirty_flags(page.backing as int, flags));
        }
    }
}

} // verus!
