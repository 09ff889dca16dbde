//! What forking an address space and resolving its copy-on-write pages does to
//! what is seen through it.
use vstd::prelude::*;
use crate::cpu_fabric::CpuFabric;
use crate::guest_laws::{lemma_guest, may_store, page_at, seen_at};
use crate::icache::ICache;
use crate::io_mmu::IoMMU;
use crate::laws::{law_copy_keeps_contents, law_fork_same_view};
use crate::memory::page_of;
use crate::page_store::{Holder, StoreView};
use crate::page_table::{contents, entry_ok, PageEntry, PageSource};

verus! {

/// Pages that show the same contents show the same bytes.
proof fn lemma_same_seen(
    a: StoreView,
    table: Map<u64, PageEntry>,
    b: StoreView,
    other: Map<u64, PageEntry>,
    addr: int,
)
    requires
        0 <= addr < 0x1_0000_0000_0000_0000,
        contents(b, other, page_of(addr)) == contents(a, table, page_of(addr)),
    ensures
        seen_at(b, other, addr) == seen_at(a, table, addr),
{
    lemma_guest(a, table, addr);
    lemma_guest(b, other, addr);
}

/// Forking: both address spaces have the pages of the forked one with their
/// protections, and see at every address what it saw. Shared pages stay shared
/// and writable. Private memory can be written in place by neither of them any
/// more. A private page of an object that was not read yet stands, in the new
/// address space, for the same page of the same object, but in a slot of its
/// own.
pub proof fn law_fork<T: ICache>(mmu: &mut IoMMU, fabric: &mut CpuFabric<T>, r: IoMMU, addr: int)
    requires
        old(mmu).wf(*old(fabric)),
        call_ensures(IoMMU::fork::<T>, (mmu, fabric), r),
        0 <= addr < 0x1_0000_0000_0000_0000,
    ensures
        ({
            let n = (addr / 4096) as u64;
            let before = old(mmu).table@;
            let parent = final(mmu).table@;
            let child = r.table@;
            let a = old(fabric).store@;
            let b = final(fabric).store@;
            &&& parent.contains_key(n) == before.contains_key(n)
            &&& child.contains_key(n) == before.contains_key(n)
            &&& seen_at(b, parent, addr) == seen_at(a, before, addr)
            &&& seen_at(b, child, addr) == seen_at(a, before, addr)
            &&& before.contains_key(n) ==> {
                &&& parent[n].protections == before[n].protections
                &&& child[n].protections == before[n].protections
                &&& match before[n].source {
                    PageSource::Shared(_) => parent[n] == before[n] && child[n] == before[n],
                    PageSource::Object { shared: true, .. } => parent[n] == before[n] && child[n]
                        == before[n],
                    PageSource::Private { page, .. } => !may_store(parent, addr) && !may_store(
                        child,
                        addr,
                    ) && page_at(b, parent, addr) == Some(page) && page_at(b, child, addr) == Some(
                        page,
                    ),
                    PageSource::Object { slot, shared: false } => match a.slots[slot as int].page {
                        Some(page) => !may_store(parent, addr) && !may_store(child, addr)
                            && page_at(b, parent, addr) == Some(page) && page_at(b, child, addr)
                            == Some(page),
                        None => {
                            &&& parent[n] == before[n]
                            &&& child[n].source matches PageSource::Object {
                                slot: copy,
                                shared: false,
                            }
                            &&& copy != slot
                            &&& b.slots[copy as int].page is None
                            &&& b.slots[copy as int].object == a.slots[slot as int].object
                            &&& b.slots[copy as int].page_offset
                                == a.slots[slot as int].page_offset
                        },
                    },
                }
            }
        }),
        r.table.space@ != old(mmu).table.space@,
{
    let n = (addr / 4096) as u64;
    let a = old(fabric).store@;
    let b = final(fabric).store@;
    let before = old(mmu).table@;
    assert(final(mmu).table@.dom().contains(n) == before.dom().contains(n));
    assert(r.table@.dom().contains(n) == before.dom().contains(n));
    law_fork_same_view(
        a,
        b,
        old(mmu).table.space@,
        before,
        final(mmu).table@,
        r.table.space@,
        r.table@,
        page_of(addr),
    );
    lemma_same_seen(a, before, b, final(mmu).table@, addr);
    lemma_same_seen(a, before, b, r.table@, addr);
    if before.contains_key(n) {
        assert(entry_ok(a, old(mmu).table.space@, n, before[n]));
    }
}

/// Resolving copy-on-write pages: every address shows what it showed with the
/// same protections. Private memory is then written in place wherever the
/// protections allow stores, and belongs to this address space alone. Nothing
/// else about the mappings changes.
pub proof fn law_copy_all<T: ICache>(mmu: &mut IoMMU, fabric: &mut CpuFabric<T>, addr: int)
    requires
        old(mmu).wf(*old(fabric)),
        call_ensures(IoMMU::copy_all_cow_pages::<T>, (mmu, fabric), ()),
        0 <= addr < 0x1_0000_0000_0000_0000,
    ensures
        ({
            let n = (addr / 4096) as u64;
            let before = old(mmu).table@;
            let after = final(mmu).table@;
            let b = final(fabric).store@;
            &&& after.contains_key(n) == before.contains_key(n)
            &&& seen_at(b, after, addr) == seen_at(old(fabric).store@, before, addr)
            &&& before.contains_key(n) ==> {
                &&& after[n].protections == before[n].protections
                &&& may_store(after, addr) == before[n].protections.write
                &&& match before[n].source {
                    PageSource::Private { page, write_protected } => {
                        &&& after[n].source matches PageSource::Private {
                            page: own,
                            write_protected: false,
                        }
                        &&& !write_protected ==> own == page
                        &&& b.pages[own as int].holders@ == set![
                            Holder::Table { space: old(mmu).table.space@, page: n },
                        ]
                    },
                    _ => after[n] == before[n],
                }
            }
        }),
{
    let n = (addr / 4096) as u64;
    let before = old(mmu).table@;
    assert(final(mmu).table@.dom().contains(n) == before.dom().contains(n));
    law_copy_keeps_contents(
        old(fabric).store@,
        final(fabric).store@,
        old(mmu).table.space@,
        before,
        final(mmu).table@,
        page_of(addr),
    );
    lemma_same_seen(old(fabric).store@, before, final(fabric).store@, final(mmu).table@, addr);
    if before.contains_key(n) {
        assert(final(mmu).table@.contains_key(n));
        assert(entry_ok(
            final(fabric).store@,
            old(mmu).table.space@,
            n,
            final(mmu).table@[n],
        ));
    }
}

} // verus!
