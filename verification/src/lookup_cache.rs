//! Address-translation caching.
//!
//! Every memory access is parameterized by a [`LookupCache`], which resolves
//! page numbers to pages. Callers can pass [`NoCache`] to hit the page table
//! directly on every access, or a [`Tlb`] to amortize translation cost across
//! repeated accesses.
use vstd::prelude::*;
use crate::fault::MemoryFault;
use crate::io_mmu::IoMMU;
use crate::memory::{Page, PageNumber};
use crate::page_store::{PageStore, StoreView};
use crate::page_table::{lookup, resolve};

verus! {

/// A cache layer that sits between the CPU and the page table, translating
/// page numbers into pages.
///
/// A cache may answer from what it remembers or fall through to the page
/// table. Either way, the answer is that of the page table.
pub trait LookupCache {
    /// What the cache remembers agrees with the page table.
    spec fn consistent(&self, io_mmu: IoMMU, st: StoreView) -> bool;

    /// A cache stays consistent as long as pages resolve as before.
    proof fn lemma_consistent(&self, io_mmu: IoMMU, a: StoreView, b: StoreView)
        requires
            self.consistent(io_mmu, a),
            forall|n: int|
                #[trigger] resolve(b, io_mmu.table@, n) == resolve(a, io_mmu.table@, n),
        ensures
            self.consistent(io_mmu, b),
    ;

    /// Resolves `page`.
    fn get_page(&mut self, io_mmu: &IoMMU, store: &PageStore, page: PageNumber) -> (r: Result<
        Page,
        MemoryFault,
    >)
        requires
            store@.wf(),
            io_mmu.table.wf(store@),
            page.wf(),
            old(self).consistent(*io_mmu, store@),
        ensures
            r == lookup(store@, io_mmu.table@, page.number as int),
            final(self).consistent(*io_mmu, store@),
    ;
}

/// A [`LookupCache`] that performs no caching at all.
///
/// Every lookup goes straight to the page table. Useful for one-off accesses
/// where a cached entry would never be reused.
pub struct NoCache;

impl LookupCache for NoCache {
    open spec fn consistent(&self, io_mmu: IoMMU, st: StoreView) -> bool {
        true
    }

    proof fn lemma_consistent(&self, io_mmu: IoMMU, a: StoreView, b: StoreView) {
    }

    fn get_page(&mut self, io_mmu: &IoMMU, store: &PageStore, page: PageNumber) -> (r: Result<
        Page,
        MemoryFault,
    >) {
        io_mmu.table.get_page(store, page)
    }
}

/// Number of entries of a [`Tlb`].
pub const TLB_SIZE: usize = 256;

/// One remembered translation: the state of the address space it was made
/// in, the page number, and the page it resolved to.
#[derive(Clone, Copy, PartialEq, Eq, Structural, Debug)]
pub struct TlbEntry {
    pub token: u64,
    pub number: u64,
    pub page: Page,
}

/// A direct-mapped cache of translations.
pub struct Tlb {
    pub entries: Vec<Option<TlbEntry>>,
}

impl Tlb {
    /// A cache that remembers nothing.
    pub fn new() -> (r: Self)
        ensures
            r.entries@.len() == TLB_SIZE,
            forall|i: int| 0 <= i < TLB_SIZE ==> r.entries@[i] is None,
    {
        let mut entries: Vec<Option<TlbEntry>> = Vec::new();
        let mut i: usize = 0;
        while i < TLB_SIZE
            invariant
                i <= TLB_SIZE,
                entries@.len() == i,
                forall|k: int| 0 <= k < i ==> entries@[k] is None,
            decreases TLB_SIZE - i,
        {
            entries.push(None);
            i += 1;
        }
        Tlb { entries }
    }

    /// Every remembered translation was made under a token below `bound`.
    pub open spec fn bounded(self, bound: u64) -> bool {
        forall|i: int|
            0 <= i < self.entries@.len() ==> (#[trigger] self.entries@[i] matches Some(entry)
                ==> entry.token < bound)
    }
}

impl LookupCache for Tlb {
    open spec fn consistent(&self, io_mmu: IoMMU, st: StoreView) -> bool {
        &&& self.entries@.len() == TLB_SIZE
        &&& forall|i: int|
            0 <= i < TLB_SIZE ==> (#[trigger] self.entries@[i] matches Some(entry) ==> entry.token
                == io_mmu.identifier.token ==> resolve(st, io_mmu.table@, entry.number as int) == Some(
                entry.page,
            ))
    }

    proof fn lemma_consistent(&self, io_mmu: IoMMU, a: StoreView, b: StoreView) {
    }

    /// Answers from an entry that was made under the current token of the
    /// address space, and remembers what the page table answered.
    fn get_page(&mut self, io_mmu: &IoMMU, store: &PageStore, page: PageNumber) -> (r: Result<
        Page,
        MemoryFault,
    >)
        ensures
            r matches Ok(found) ==> final(self).entries@[page.number as int % 256] == Some(
                TlbEntry { token: io_mmu.identifier.token, number: page.number, page: found },
            ),
            forall|i: int|
                0 <= i < TLB_SIZE && (r is Err || i != page.number as int % 256)
                    ==> #[trigger] final(self).entries@[i] == old(self).entries@[i],
            forall|bound: u64|
                old(self).bounded(bound) && io_mmu.identifier.token < bound
                    ==> #[trigger] final(self).bounded(bound),
    {
        let index: usize = (page.number % 256) as usize;
        let token: u64 = io_mmu.identifier.token;
        if let Some(entry) = self.entries[index] {
            if entry.token == token && entry.number == page.number {
                return Ok(entry.page);
            }
        }
        match io_mmu.table.get_page(store, page) {
            Ok(found) => {
                self.entries[index] = Some(
                    TlbEntry { token, number: page.number, page: found },
                );
                Ok(found)
            },
            Err(fault) => Err(fault),
        }
    }
}

/// Entries made under other tokens are never used: under a token that is
/// newer than all remembered translations, the cache is consistent with
/// whatever the page table became.
pub proof fn law_stale_entries_ignored(tlb: Tlb, io_mmu: IoMMU, st: StoreView)
    requires
        tlb.entries@.len() == TLB_SIZE,
        tlb.bounded(io_mmu.identifier.token),
    ensures
        tlb.consistent(io_mmu, st),
{
}

} // verus!
