//! Pages, page numbers, protections and tagged page pointers.
use vstd::prelude::*;

verus! {

/// Size of a guest page in bytes.
pub const PAGE_SIZE: usize = 4096;

/// Size of a guest page in bytes, as a 64-bit quantity.
pub const PAGE_SIZE_U64: u64 = 4096;

/// The largest page number of a 64-bit address space.
pub const MAX_PAGE_NUMBER: u64 = 0xf_ffff_ffff_ffff;

/// Guest access permissions of a page.
#[derive(Clone, Copy, PartialEq, Eq, Structural, Debug)]
pub struct MemProt {
    pub read: bool,
    pub write: bool,
    pub execute: bool,
}

impl MemProt {
    /// A protection with the given permissions.
    pub fn new(read: bool, write: bool, execute: bool) -> (r: Self)
        ensures
            r == (MemProt { read, write, execute }),
    {
        MemProt { read, write, execute }
    }

    /// Only `READ`.
    pub open spec fn spec_read() -> Self {
        MemProt { read: true, write: false, execute: false }
    }

    /// Only `WRITE`.
    pub open spec fn spec_write() -> Self {
        MemProt { read: false, write: true, execute: false }
    }
}

/// Flags carried by a tagged page pointer: the guest permissions together
/// with how the page has to be treated by a writer.
#[derive(Clone, Copy, PartialEq, Eq, Structural, Debug)]
pub struct MemFlags {
    pub read: bool,
    pub write: bool,
    pub execute: bool,
    /// The page is copy-on-write and must not be written in place.
    pub cow: bool,
    /// The page mirrors a shared memory object.
    pub dma_dev: bool,
}

impl MemFlags {
    /// The flags of a plain page with protection `prot`.
    pub open spec fn spec_from_prot(prot: MemProt) -> Self {
        MemFlags {
            read: prot.read,
            write: prot.write,
            execute: prot.execute,
            cow: false,
            dma_dev: false,
        }
    }

    /// The flags of a plain page with protection `prot`.
    pub fn from_prot(prot: MemProt) -> (r: Self)
        ensures
            r == Self::spec_from_prot(prot),
    {
        MemFlags {
            read: prot.read,
            write: prot.write,
            execute: prot.execute,
            cow: false,
            dma_dev: false,
        }
    }

    /// Whether one of the permissions in `prot` is granted by `self`.
    pub open spec fn spec_contains_any(self, prot: MemProt) -> bool {
        ||| self.read && prot.read
        ||| self.write && prot.write
        ||| self.execute && prot.execute
    }

    /// Whether one of the permissions in `prot` is granted by `self`.
    pub fn contains_any(self, prot: MemProt) -> (r: bool)
        ensures
            r == self.spec_contains_any(prot),
    {
        (self.read && prot.read) || (self.write && prot.write) || (self.execute && prot.execute)
    }

    /// Whether a store to the page has to be recorded: cached translations
    /// of an executable page, and the object behind a shared object page,
    /// have to learn of the new contents.
    pub open spec fn spec_must_dirty(self) -> bool {
        self.execute || self.dma_dev
    }

    /// Whether a store to the page has to be recorded.
    pub fn must_dirty(self) -> (r: bool)
        ensures
            r == self.spec_must_dirty(),
    {
        self.execute || self.dma_dev
    }
}

/// The number of a guest page: its base address divided by the page size.
#[derive(Clone, Copy, PartialEq, Eq, Structural, Debug)]
pub struct PageNumber {
    pub number: u64,
}

/// The number of the page that holds `vaddr`.
pub open spec fn page_of(vaddr: int) -> int {
    vaddr / 4096
}

/// The offset of `vaddr` inside its page.
pub open spec fn offset_of(vaddr: int) -> int {
    vaddr % 4096
}

impl PageNumber {
    /// Page numbers are those of a 64-bit address space.
    pub open spec fn wf(self) -> bool {
        self.number <= MAX_PAGE_NUMBER
    }

    /// Splits `vaddr` into the page that contains it and the offset inside
    /// that page.
    pub fn from_vaddr_with_offset(vaddr: u64) -> (r: (Self, usize))
        ensures
            r.0.number == page_of(vaddr as int),
            r.1 == offset_of(vaddr as int),
            r.0.wf(),
            r.1 < PAGE_SIZE,
    {
        let offset: u64 = vaddr % PAGE_SIZE_U64;
        (PageNumber { number: vaddr / PAGE_SIZE_U64 }, offset as usize)
    }

    /// The address of the first byte of the page.
    pub fn vaddr_base(self) -> (r: u64)
        requires
            self.wf(),
        ensures
            r == self.number * 4096,
    {
        self.number * PAGE_SIZE_U64
    }

    /// The next page, unless this is the last one.
    pub fn inc(self) -> (r: Option<Self>)
        requires
            self.wf(),
        ensures
            self.number == MAX_PAGE_NUMBER <==> r is None,
            r matches Some(next) ==> next.number == self.number + 1 && next.wf(),
    {
        if self.number == MAX_PAGE_NUMBER {
            None
        } else {
            Some(PageNumber { number: self.number + 1 })
        }
    }
}

/// Identifies one page of host memory.
#[derive(Clone, Copy, PartialEq, Eq, Structural, Debug)]
pub struct PagePointer {
    pub index: usize,
}

/// A page pointer together with the flags of the mapping it came from.
#[derive(Clone, Copy, PartialEq, Eq, Structural, Debug)]
pub struct TaggedPagePtr {
    pub page: PagePointer,
    pub flags: MemFlags,
}

/// A resolved page: where its bytes are, what may be done with them, and
/// which backing page keeps its dirty state.
#[derive(Clone, Copy, PartialEq, Eq, Structural, Debug)]
pub struct Page {
    pub ptr: TaggedPagePtr,
    pub backing: usize,
}

/// Dirty-state bit: the page was written and the write was not flushed yet.
pub const DIRTY_FLAG_IS_DIRTY: u8 = 1;

/// Dirty-state bit: a flush of the page is in progress.
pub const DIRTY_FLAG_FLUSHING: u8 = 2;

/// Identity token of one state of an address space.
#[derive(Clone, Copy, PartialEq, Eq, Structural, Debug)]
pub struct IoMMUIdentifier {
    pub token: u64,
}

} // verus!
