//! Page-mapped virtual memory over host-backed storage.
//!
//! An [`IoMMU`] maps guest virtual addresses onto pages of host memory.
//! Access permissions are checked per page, and an invalid access returns a
//! [`MemoryFault`].
use vstd::prelude::*;
use crate::cpu_fabric::{lemma_new_space, same_devices, spaces_bounded, CpuFabric};
use crate::fault::{gp, MemoryFault};
use crate::icache::ICache;
use crate::object_manager::{queue_ok, EntryView, OpType};
use crate::memory::{IoMMUIdentifier, MemProt, PagePointer, PAGE_SIZE_U64};
use crate::page_store::StoreView;
use crate::page_table::{
    copied, entries_changed, first_page, flush_fold, forked, frame, given_back, init_fold, is_cow, lent_since,
    lists_lost, lists_pages, mapped_pages, me, memory_of, one, page_frame, pages_of, region_ok,
    same_but_dirty, slot_frame, two, unmap_log, unmap_store, FlushState, MapRegion, MemMapFlags,
    PageEntry, PageTable, PageTableAccess,
};

verus! {

/// One guest address space.
pub struct IoMMU {
    pub identifier: IoMMUIdentifier,
    pub table: PageTable,
}

impl IoMMU {
    /// The address space is valid for the machine whose state is `fabric`.
    pub open spec fn wf<T: ICache>(self, fabric: CpuFabric<T>) -> bool {
        &&& fabric.wf()
        &&& self.table.wf(fabric.store@)
        &&& self.table.space@ < fabric.spaces@
        &&& self.identifier.token < fabric.next_token
    }

    /// Creates a new, empty address space of the machine.
    ///
    /// The address space starts with no mappings; every access faults until
    /// regions are mapped.
    pub fn new<T: ICache>(fabric: &mut CpuFabric<T>) -> (r: Self)
        requires
            old(fabric).wf(),
            old(fabric).has_token(),
        ensures
            r.wf(*final(fabric)),
            r.table@ == Map::<u64, PageEntry>::empty(),
            r.table.space@ == old(fabric).spaces@,
            r.identifier.token == old(fabric).next_token,
            *final(fabric) == (CpuFabric {
                next_token: (old(fabric).next_token + 1) as u64,
                spaces: Ghost((old(fabric).spaces@ + 1) as nat),
                ..*old(fabric)
            }),
    {
        let identifier = fabric.unique_token();
        let space: Ghost<nat> = fabric.spaces;
        proof {
            lemma_new_space(fabric.store@, space@);
        }
        fabric.spaces = Ghost((space@ + 1) as nat);
        IoMMU { identifier, table: PageTable::new(space) }
    }

    /// Returns the current identity token of this address space.
    ///
    /// The identifier changes whenever the page table is mutated, so caches
    /// such as a TLB can use it to detect that their entries are stale.
    pub fn get_ident(&self) -> (r: IoMMUIdentifier)
        ensures
            r == self.identifier,
    {
        self.identifier
    }

    fn change_ident<T: ICache>(&mut self, fabric: &mut CpuFabric<T>)
        requires
            old(fabric).has_token(),
        ensures
            final(self).table == old(self).table,
            final(self).identifier.token == old(fabric).next_token,
            *final(fabric) == (CpuFabric {
                next_token: (old(fabric).next_token + 1) as u64,
                ..*old(fabric)
            }),
    {
        self.identifier = fabric.unique_token();
    }

    /// Maps `size` bytes from `base` on.
    fn map_region<T: ICache>(
        &mut self,
        fabric: &mut CpuFabric<T>,
        base: u64,
        size: u64,
        mem_prot: MemProt,
        region: MapRegion,
    ) -> (r: Result<(), MemoryFault>)
        requires
            old(self).wf(*old(fabric)),
            old(fabric).has_token(),
            region_ok(old(fabric).store@, region, size as int / 4096),
        ensures
            final(self).wf(*final(fabric)),
            map_outcome(
                *old(self),
                *old(fabric),
                *final(self),
                *final(fabric),
                base,
                size,
                mem_prot,
                region,
                r,
            ),
    {
        let access = match PageTableAccess::get_pages(base, size) {
            Ok(Some(access)) => access,
            Ok(None) => {
                return Ok(());
            },
            Err(fault) => {
                return Err(fault);
            },
        };
        match self.table.map(&mut fabric.store, access, mem_prot, region) {
            Ok(()) => {
                proof {
                    lemma_spaces_bounded(
                        old(fabric).store@,
                        fabric.store@,
                        one(self.table.space@),
                        fabric.spaces@,
                        fabric.spaces@,
                        fabric.object_manager.queue@,
                    );
                }
                self.change_ident(fabric);
                Ok(())
            },
            Err(fault) => Err(fault),
        }
    }

    /// Maps memory of the embedder.
    ///
    /// `base` is the starting virtual address, `size` the mapping size in
    /// bytes, `addr` the host address of the memory, and `ptr` the first of
    /// the host pages that it was lent as. Memory whose host address is not
    /// page-aligned is refused.
    ///
    /// A mapping that is not read-only writes the memory in place; it is
    /// shared with forked address spaces when `shared` is set. A read-only
    /// mapping is copy-on-write. There is no such thing as a shared read-only
    /// mapping.
    pub fn map_extern<T: ICache>(
        &mut self,
        fabric: &mut CpuFabric<T>,
        base: u64,
        size: u64,
        addr: u64,
        ptr: PagePointer,
        readonly: bool,
        shared: bool,
        protections: MemProt,
    ) -> (r: Result<(), MemoryFault>)
        requires
            old(self).wf(*old(fabric)),
            old(fabric).has_token(),
            !(readonly && shared),
            region_ok(
                old(fabric).store@,
                MapRegion::Extern { flags: MemMapFlags::Private, base_ptr: ptr },
                size as int / 4096,
            ),
        ensures
            final(self).wf(*final(fabric)),
            addr % 4096 != 0 ==> r == Err::<(), MemoryFault>(gp(base)) && *final(self) == *old(self)
                && *final(fabric) == *old(fabric),
            addr % 4096 == 0 ==> map_outcome(
                *old(self),
                *old(fabric),
                *final(self),
                *final(fabric),
                base,
                size,
                protections,
                MapRegion::Extern {
                    flags: if readonly {
                        MemMapFlags::Cow
                    } else if shared {
                        MemMapFlags::Shared
                    } else {
                        MemMapFlags::Private
                    },
                    base_ptr: ptr,
                },
                r,
            ),
    {
        if addr % PAGE_SIZE_U64 != 0 {
            return Err(MemoryFault::general_protection(base));
        }
        let flags: MemMapFlags = if readonly {
            MemMapFlags::Cow
        } else if shared {
            MemMapFlags::Shared
        } else {
            MemMapFlags::Private
        };
        self.map_region(fabric, base, size, protections, MapRegion::Extern { flags, base_ptr: ptr })
    }

    /// Maps anonymous zero-initialized memory.
    ///
    /// `base` and `size` must be page-aligned and `base + size` must not
    /// overflow. No mapping may exist in the range. `protections` is applied
    /// to every mapped page.
    ///
    /// If `shared` is `true`, the pages are shared with forked address
    /// spaces. If `lazy` is `true` (and `shared` is `false`), pages start as
    /// copy-on-write views of the zero page: a store to them is refused until
    /// [`copy_all_cow_pages`](Self::copy_all_cow_pages) has given them storage
    /// of their own.
    pub fn map<T: ICache>(
        &mut self,
        fabric: &mut CpuFabric<T>,
        base: u64,
        size: u64,
        lazy: bool,
        shared: bool,
        protections: MemProt,
    ) -> (r: Result<(), MemoryFault>)
        requires
            old(self).wf(*old(fabric)),
            old(fabric).has_token(),
        ensures
            final(self).wf(*final(fabric)),
            map_outcome(
                *old(self),
                *old(fabric),
                *final(self),
                *final(fabric),
                base,
                size,
                protections,
                MapRegion::Anon(
                    if shared {
                        MemMapFlags::Shared
                    } else if lazy {
                        MemMapFlags::Cow
                    } else {
                        MemMapFlags::Private
                    },
                ),
                r,
            ),
    {
        let flags: MemMapFlags = if shared {
            MemMapFlags::Shared
        } else if lazy {
            MemMapFlags::Cow
        } else {
            MemMapFlags::Private
        };
        self.map_region(fabric, base, size, protections, MapRegion::Anon(flags))
    }

    /// Maps a demand-paged memory object, named by the handle `device`.
    ///
    /// Page contents are faulted in from the object on first use and dirty
    /// pages are written back to it. If `shared` is `true`, the object's
    /// pages are shared with forked address spaces.
    pub fn map_device_dyn<T: ICache>(
        &mut self,
        fabric: &mut CpuFabric<T>,
        base: u64,
        size: u64,
        device: u64,
        shared: bool,
        protections: MemProt,
    ) -> (r: Result<(), MemoryFault>)
        requires
            old(self).wf(*old(fabric)),
            old(fabric).has_token(),
        ensures
            final(self).wf(*final(fabric)),
            map_outcome(
                *old(self),
                *old(fabric),
                *final(self),
                *final(fabric),
                base,
                size,
                protections,
                MapRegion::Object { shared, object: device },
                r,
            ),
    {
        self.map_region(
            fabric,
            base,
            size,
            protections,
            MapRegion::Object { shared, object: device },
        )
    }

    /// Unmaps every mapped page in `start..(start + size)`.
    ///
    /// Pages in the range that are not mapped are skipped; dirty pages are
    /// dropped without being flushed back to their memory object.
    pub fn unmap<T: ICache>(&mut self, fabric: &mut CpuFabric<T>, start: u64, size: u64) -> (r: Result<
        (),
        MemoryFault,
    >)
        requires
            old(self).wf(*old(fabric)),
            old(fabric).has_token(),
        ensures
            final(self).wf(*final(fabric)),
            match pages_of(start, size) {
                Err(fault) => r == Err::<(), MemoryFault>(fault) && *final(self) == *old(self)
                    && *final(fabric) == *old(fabric),
                Ok(None) => r is Ok && *final(self) == *old(self) && *final(fabric) == *old(fabric),
                Ok(Some(access)) => {
                    &&& r is Ok
                    &&& unmapped(
                        *old(self),
                        *old(fabric),
                        *final(self),
                        *final(fabric),
                        access,
                    )
                    &&& exists|gone: Seq<int>| #[trigger]
                        lists_lost(gone, old(fabric).store@, final(fabric).store@) && final(fabric).instruction_cache.invalidated() == old(
                            fabric,
                        ).instruction_cache.invalidated() + memory_of(old(fabric).store@, gone)
                    &&& given_back(old(fabric).store@, final(fabric).store@)
                },
            },
    {
        let access = match PageTableAccess::get_pages(start, size) {
            Ok(Some(access)) => access,
            Ok(None) => {
                return Ok(());
            },
            Err(fault) => {
                return Err(fault);
            },
        };
        let modified: bool = self.table.unmap(
            &mut fabric.store,
            &mut fabric.instruction_cache,
            access,
        );
        proof {
            lemma_spaces_bounded(
                old(fabric).store@,
                fabric.store@,
                one(self.table.space@),
                fabric.spaces@,
                fabric.spaces@,
                fabric.object_manager.queue@,
            );
        }
        if modified {
            self.change_ident(fabric);
        }
        Ok(())
    }

    /// Sets the guest protection of every page in `start..(start + size)`.
    ///
    /// Every page in the range must currently be mapped; if any page is
    /// unmapped, no page is modified.
    pub fn protect<T: ICache>(
        &mut self,
        fabric: &mut CpuFabric<T>,
        start: u64,
        size: u64,
        protections: MemProt,
    ) -> (r: Result<(), MemoryFault>)
        requires
            old(self).wf(*old(fabric)),
            old(fabric).has_token(),
        ensures
            final(self).wf(*final(fabric)),
            final(self).table.space == old(self).table.space,
            match pages_of(start, size) {
                Err(fault) => r == Err::<(), MemoryFault>(fault) && *final(self) == *old(self)
                    && *final(fabric) == *old(fabric),
                Ok(None) => r is Ok && *final(self) == *old(self) && *final(fabric) == *old(fabric),
                Ok(Some(access)) => match r {
                    Ok(()) => {
                        &&& forall|m: int|
                            access.contains(m) ==> #[trigger] old(self).table@.contains_key(m as u64)
                        &&& final(self).table@ == with_protection(
                            old(self).table@,
                            access,
                            protections,
                        )
                        &&& token_follows(
                            *old(self),
                            *old(fabric),
                            *final(self),
                            *final(fabric),
                            exists|m: u64|
                                access.contains(m as int) && #[trigger] old(
                                    self,
                                ).table@[m].protections != protections,
                        )
                        &&& final(fabric).store@ == old(fabric).store@
                        &&& final(fabric).instruction_cache == old(fabric).instruction_cache
                        &&& final(fabric).spaces == old(fabric).spaces
                        &&& same_devices(*old(fabric), *final(fabric))
                    },
                    Err(fault) => {
                        &&& final(self).table@ == old(self).table@
                        &&& final(self).identifier == old(self).identifier
                        &&& *final(fabric) == *old(fabric)
                        &&& exists|page: int|
                            first_page(old(self).table@, access, false, page) && fault == gp(
                                (page * 4096) as u64,
                            )
                    },
                },
            },
    {
        let access = match PageTableAccess::get_pages(start, size) {
            Ok(Some(access)) => access,
            Ok(None) => {
                return Ok(());
            },
            Err(fault) => {
                return Err(fault);
            },
        };
        match self.table.protect(&fabric.store, access, protections) {
            Ok(modified) => {
                assert(self.table@ == with_protection(old(self).table@, access, protections));
                if modified {
                    self.change_ident(fabric);
                }
                Ok(())
            },
            Err(fault) => Err(fault),
        }
    }

    /// Forks this address space: a new one with a copy of the current page
    /// table.
    ///
    /// Shared mappings keep referring to the same pages in both address
    /// spaces. Private mappings become copy-on-write: both sides see the same
    /// contents, and a store to them is refused until
    /// [`copy_all_cow_pages`](Self::copy_all_cow_pages) has given the writer
    /// its own copy, which the other side does not see. The identity token
    /// changes if an entry of this address space has changed.
    pub fn fork<T: ICache>(&mut self, fabric: &mut CpuFabric<T>) -> (r: Self)
        requires
            old(self).wf(*old(fabric)),
            old(fabric).has_token(),
        ensures
            final(self).wf(*final(fabric)),
            r.wf(*final(fabric)),
            final(self).table.space == old(self).table.space,
            r.table.space@ == old(fabric).spaces@,
            r.identifier == final(self).identifier,
            final(self).table@.dom() == old(self).table@.dom(),
            r.table@.dom() == old(self).table@.dom(),
            forall|n: u64| #[trigger]
                old(self).table@.contains_key(n) ==> forked(
                    old(fabric).store@,
                    final(fabric).store@,
                    old(fabric).spaces@,
                    n,
                    old(self).table@[n],
                    final(self).table@[n],
                    r.table@[n],
                ),
            frame(
                old(fabric).store@,
                final(fabric).store@,
                two(old(self).table.space@, r.table.space@),
            ),
            token_follows(
                *old(self),
                *old(fabric),
                *final(self),
                *final(fabric),
                entries_changed(old(self).table@, final(self).table@),
            ),
            final(fabric).spaces@ == old(fabric).spaces@ + 1,
            same_devices(*old(fabric), *final(fabric)),
            final(fabric).instruction_cache.invalidated() == old(
                fabric,
            ).instruction_cache.invalidated(),
    {
        let space: Ghost<nat> = fabric.spaces;
        proof {
            lemma_new_space(fabric.store@, space@);
        }
        let (table, modified) = self.table.fork(&mut fabric.store, &mut fabric.instruction_cache, space);
        fabric.spaces = Ghost((space@ + 1) as nat);
        proof {
            lemma_spaces_bounded(
                old(fabric).store@,
                fabric.store@,
                two(self.table.space@, space@),
                space@,
                fabric.spaces@,
                fabric.object_manager.queue@,
            );
        }
        if modified {
            self.change_ident(fabric);
        }
        IoMMU { identifier: self.identifier, table }
    }

    /// Eagerly resolves every copy-on-write page in this address space,
    /// giving each private page its own backing storage now. A page of lent
    /// memory that nobody holds any more is notified once.
    pub fn copy_all_cow_pages<T: ICache>(&mut self, fabric: &mut CpuFabric<T>)
        requires
            old(self).wf(*old(fabric)),
            old(fabric).has_token(),
        ensures
            final(self).wf(*final(fabric)),
            final(self).table.space == old(self).table.space,
            final(self).table@.dom() == old(self).table@.dom(),
            forall|n: u64| #[trigger]
                old(self).table@.contains_key(n) ==> copied(
                    old(fabric).store@,
                    final(fabric).store@,
                    old(self).table@[n],
                    final(self).table@[n],
                ),
            frame(old(fabric).store@, final(fabric).store@, one(old(self).table.space@)),
            token_follows(
                *old(self),
                *old(fabric),
                *final(self),
                *final(fabric),
                exists|n: u64| #[trigger]
                    old(self).table@.contains_key(n) && is_cow(old(self).table@[n]),
            ),
            final(fabric).spaces == old(fabric).spaces,
            same_devices(*old(fabric), *final(fabric)),
            exists|gone: Seq<int>| #[trigger]
                lists_lost(gone, old(fabric).store@, final(fabric).store@)
                    && final(fabric).instruction_cache.invalidated() == old(
                    fabric,
                ).instruction_cache.invalidated() + memory_of(old(fabric).store@, gone),
            lent_since(
                old(fabric).store@,
                final(fabric).instruction_cache.invalidated(),
                old(fabric).instruction_cache.invalidated().len() as int,
            ),
    {
        let modified: bool = self.table.copy_all_cow_pages(
            &mut fabric.store,
            &mut fabric.instruction_cache,
        );
        proof {
            lemma_spaces_bounded(
                old(fabric).store@,
                fabric.store@,
                one(self.table.space@),
                fabric.spaces@,
                fabric.spaces@,
                fabric.object_manager.queue@,
            );
        }
        if modified {
            self.change_ident(fabric);
        }
    }

    /// Starts the write-back of every dirty shared object page in this
    /// address space: gives the slots that have to be handed to the object
    /// manager. Nothing waits for the write-back to complete.
    pub fn refresh<T: ICache>(&self, fabric: &mut CpuFabric<T>) -> (r: Vec<usize>)
        requires
            self.wf(*old(fabric)),
        ensures
            self.wf(*final(fabric)),
            flushed(*self, *old(fabric), *final(fabric), r@),
    {
        let requests: Vec<usize> = self.table.flush_pages(
            &mut fabric.store,
            &mut fabric.instruction_cache,
        );
        proof {
            lemma_bounded_dirty(old(fabric).store@, fabric.store@, fabric.spaces@);
        }
        requests
    }

    /// The slots of every dirty shared object page in this address space,
    /// which the caller hands to the object manager and whose write-back it
    /// waits for.
    pub fn flush<T: ICache>(&self, fabric: &mut CpuFabric<T>) -> (r: Vec<usize>)
        requires
            self.wf(*old(fabric)),
        ensures
            self.wf(*final(fabric)),
            flushed(*self, *old(fabric), *final(fabric), r@),
    {
        self.refresh(fabric)
    }

    /// The slots of every object page that was not faulted in yet, which the
    /// caller hands to the object manager and whose loading it waits for.
    pub fn fault_in_all_memory_objects<T: ICache>(&self, fabric: &CpuFabric<T>) -> (r: Vec<usize>)
        requires
            self.wf(*fabric),
        ensures
            exists|order: Seq<u64>| #[trigger]
                lists_pages(order, self.table@) && r@ == init_fold(
                    fabric.store@,
                    self.table@,
                    order,
                    order.len(),
                ),
    {
        self.table.absent_slots(&fabric.store)
    }
}

/// The identity token is a fresh one exactly when the page table `changed`.
pub open spec fn token_follows<T: ICache>(
    a: IoMMU,
    fa: CpuFabric<T>,
    b: IoMMU,
    fb: CpuFabric<T>,
    changed: bool,
) -> bool {
    if changed {
        &&& b.identifier.token == fa.next_token
        &&& fb.next_token == fa.next_token + 1
    } else {
        &&& b.identifier == a.identifier
        &&& fb.next_token == fa.next_token
    }
}

/// A table with the protection of the pages in `access` replaced.
pub open spec fn with_protection(
    table: Map<u64, PageEntry>,
    access: PageTableAccess,
    protections: MemProt,
) -> Map<u64, PageEntry> {
    table.map_entries(
        |n: u64, e: PageEntry|
            if access.contains(n as int) {
                PageEntry { protections, ..e }
            } else {
                e
            },
    )
}

/// What mapping a region does and returns.
pub open spec fn map_outcome<T: ICache>(
    a: IoMMU,
    fa: CpuFabric<T>,
    b: IoMMU,
    fb: CpuFabric<T>,
    base: u64,
    size: u64,
    prot: MemProt,
    region: MapRegion,
    r: Result<(), MemoryFault>,
) -> bool {
    match pages_of(base, size) {
        // misaligned, or past the end of the address space
        Err(fault) => r == Err::<(), MemoryFault>(fault) && b == a && fb == fa,
        Ok(None) => r is Ok && b == a && fb == fa,
        Ok(Some(access)) => {
            &&& b.table.space == a.table.space
            &&& fb.instruction_cache == fa.instruction_cache
            &&& fb.spaces == fa.spaces
            &&& same_devices(fa, fb)
            &&& match r {
                Ok(()) => {
                    &&& forall|m: int|
                        access.contains(m) ==> !#[trigger] a.table@.contains_key(m as u64)
                    &&& mapped_pages(
                        fa.store@,
                        fb.store@,
                        a.table.space@,
                        a.table@,
                        b.table@,
                        access,
                        prot,
                        region,
                    )
                    &&& token_follows(a, fa, b, fb, true)
                },
                // the first page that is mapped already
                Err(fault) => {
                    &&& b.table@ == a.table@
                    &&& fb.store@ == fa.store@
                    &&& token_follows(a, fa, b, fb, false)
                    &&& exists|page: int|
                        first_page(a.table@, access, true, page) && fault == gp(
                            (page * 4096) as u64,
                        )
                },
            }
        },
    }
}

/// What unmapping the pages of `access` does.
pub open spec fn unmapped<T: ICache>(
    a: IoMMU,
    fa: CpuFabric<T>,
    b: IoMMU,
    fb: CpuFabric<T>,
    access: PageTableAccess,
) -> bool {
    let space = a.table.space@;
    let count = access.page_count as nat;
    &&& b.table.space == a.table.space
    &&& b.table@ == a.table@.remove_keys(Set::new(|n: u64| access.contains(n as int)))
    &&& fb.store@ == unmap_store(fa.store@, space, a.table@, access.start_page, count)
    &&& frame(fa.store@, fb.store@, one(space))
    &&& fb.instruction_cache.invalidated() == fa.instruction_cache.invalidated() + unmap_log(
        fa.store@,
        space,
        a.table@,
        access.start_page,
        count,
    )
    &&& token_follows(
        a,
        fa,
        b,
        fb,
        exists|n: u64| access.contains(n as int) && #[trigger] a.table@.contains_key(n),
    )
    &&& fb.spaces == fa.spaces
    &&& same_devices(fa, fb)
}

/// What flushing an address space does: its pages are flushed in some order.
pub open spec fn flushed<T: ICache>(
    mmu: IoMMU,
    fa: CpuFabric<T>,
    fb: CpuFabric<T>,
    requests: Seq<usize>,
) -> bool {
    &&& same_but_dirty(fa.store@, fb.store@)
    &&& fb.next_token == fa.next_token
    &&& fb.spaces == fa.spaces
    &&& same_devices(fa, fb)
    &&& exists|order: Seq<u64>| #[trigger]
        lists_pages(order, mmu.table@) && flush_fold(
            FlushState {
                store: fa.store@,
                log: fa.instruction_cache.invalidated(),
                requests: seq![],
            },
            mmu.table@,
            order,
            order.len(),
        ) == (FlushState {
            store: fb.store@,
            log: fb.instruction_cache.invalidated(),
            requests,
        })
}

proof fn lemma_bounded_dirty(a: StoreView, b: StoreView, spaces: nat)
    requires
        same_but_dirty(a, b),
        spaces_bounded(a, spaces),
    ensures
        spaces_bounded(b, spaces),
{
    assert forall|i: int, space: nat, n: u64|
        0 <= i < b.pages.len() && #[trigger] b.pages[i].holders@.contains(
            me(space, n),
        ) implies space < spaces by {
        assert(a.pages[i].holders@.contains(me(space, n)));
    }
}

/// Operations on numbered address spaces leave only numbered ones holding
/// pages.
proof fn lemma_spaces_bounded(
    a: StoreView,
    b: StoreView,
    ours: Set<nat>,
    before: nat,
    after: nat,
    q: Seq<EntryView>,
)
    requires
        queue_ok(a, q),
        frame(a, b, ours),
        spaces_bounded(a, before),
        before <= after,
        forall|space: nat| ours.contains(space) ==> space < after,
    ensures
        spaces_bounded(b, after),
        queue_ok(b, q),
{
    assert forall|i: int| #![trigger q[i]] 0 <= i < q.len() implies q[i].slot < b.slots.len() && (
    q[i].op_type == OpType::Flush && b.slots[q[i].slot as int].refs > 0
        ==> b.slots[q[i].slot as int].page is Some) by {
        assert(slot_frame(a, b, ours, q[i].slot as int));
    }
    assert forall|i: int, space: nat, n: u64|
        0 <= i < b.pages.len() && #[trigger] b.pages[i].holders@.contains(
            me(space, n),
        ) implies space < after by {
        if !ours.contains(space) && i < a.pages.len() {
            assert(page_frame(a, b, ours, i));
            assert(a.pages[i].holders@.contains(me(space, n)));
        }
    }
    assert forall|i: int, space: nat, n: u64|
        0 <= i < b.slots.len() && #[trigger] b.slots[i].holders@.contains(
            me(space, n),
        ) implies space < after by {
        if !ours.contains(space) && i < a.slots.len() {
            assert(slot_frame(a, b, ours, i));
            assert(a.slots[i].holders@.contains(me(space, n)));
        }
    }
}

} // verus!
