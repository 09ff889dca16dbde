//! Demand-paged backing stores for mappings.
//!
//! A [`MemoryObject`] is the source of truth behind a device mapping: pages
//! are read from it on first access ("fault in") and dirty pages are written
//! back to it ("fault out").
use vstd::prelude::*;
use crate::memops::{copy_nonoverlapping_host_to_vm, copy_nonoverlapping_vm_to_host};
use crate::memory::{PageNumber, PAGE_SIZE};
use crate::os_random::fill_random;

verus! {

/// A memory object that services demand-paging faults.
///
/// The object decides whether a page can be serviced; an out-of-range or
/// otherwise unserviceable page is an error. A fault-in that succeeds has
/// filled the whole page, and all access to a page ends before the method
/// returns.
pub trait MemoryObject {
    /// Fills `page` with the contents of page `page_offset`. On failure the
    /// page may hold anything.
    fn fault_in_exclusive(&self, page_offset: PageNumber, page: &mut Vec<u8>) -> (r: Result<
        (),
        anyhow::Error,
    >)
        requires
            page_offset.wf(),
            old(page)@.len() == PAGE_SIZE,
        ensures
            final(page)@.len() == PAGE_SIZE,
    ;

    /// Writes `page` back to page `page_offset`.
    fn fault_out_exclusive(&self, page_offset: PageNumber, page: &Vec<u8>) -> (r: Result<
        (),
        anyhow::Error,
    >)
        requires
            page_offset.wf(),
            page@.len() == PAGE_SIZE,
    ;

    /// Fills the shared page `shared` with the contents of page
    /// `page_offset`. Unless it is overridden, the contents go through a
    /// scratch page, and on failure the shared page stays as it was.
    fn fault_in(&self, page_offset: PageNumber, shared: &mut Vec<u8>) -> (r: Result<
        (),
        anyhow::Error,
    >)
        requires
            page_offset.wf(),
            old(shared)@.len() == PAGE_SIZE,
        ensures
            final(shared)@.len() == PAGE_SIZE,
        default_ensures
            exists|scratch: &mut Vec<u8>| #[trigger]
                call_ensures(Self::fault_in_exclusive, (self, page_offset, scratch), r) && (r is Ok
                    ==> final(shared)@ == final(scratch)@),
            r is Err ==> final(shared)@ == old(shared)@,
    {
        let mut scratch: Vec<u8> = vec![0u8; PAGE_SIZE];
        let outcome = self.fault_in_exclusive(page_offset, &mut scratch);
        publish_page(outcome, &scratch, shared)
    }

    /// Writes the shared page `shared` back to page `page_offset`. Unless it
    /// is overridden, the contents go through a scratch page.
    fn fault_out(&self, page_offset: PageNumber, shared: &Vec<u8>) -> (r: Result<
        (),
        anyhow::Error,
    >)
        requires
            page_offset.wf(),
            shared@.len() == PAGE_SIZE,
        default_ensures
            exists|scratch: Vec<u8>|
                scratch@ == shared@ && #[trigger] call_ensures(
                    Self::fault_out_exclusive,
                    (self, page_offset, &scratch),
                    r,
                ),
    {
        let mut scratch: Vec<u8> = vec![0u8; PAGE_SIZE];
        assert(shared.len() == shared@.len());
        copy_nonoverlapping_vm_to_host(shared, 0, scratch.as_mut_slice(), 0, PAGE_SIZE);
        self.fault_out_exclusive(page_offset, &scratch)
    }
}

/// Makes a page that was read into `scratch` visible in the shared page
/// `shared`, unless reading it failed.
pub fn publish_page(
    outcome: Result<(), anyhow::Error>,
    scratch: &Vec<u8>,
    shared: &mut Vec<u8>,
) -> (r: Result<(), anyhow::Error>)
    requires
        scratch@.len() == PAGE_SIZE,
        old(shared)@.len() == PAGE_SIZE,
    ensures
        r == outcome,
        final(shared)@ == (if outcome is Ok {
            scratch@
        } else {
            old(shared)@
        }),
{
    if outcome.is_ok() {
        copy_nonoverlapping_host_to_vm(scratch.as_slice(), 0, shared, 0, PAGE_SIZE);
        assert(shared@ =~= scratch@);
    }
    outcome
}

/// A [`MemoryObject`] backed by the operating system's random number
/// generator.
///
/// Every fault-in fills the page with fresh randomness, and fault-out
/// discards the page's contents. Mapping this object therefore yields memory
/// that reads as random bytes and never persists writes.
pub struct OsRng;

impl MemoryObject for OsRng {
    /// Has the whole page filled with random bytes. Whether that succeeds is
    /// up to the system.
    fn fault_in_exclusive(&self, page_offset: PageNumber, page: &mut Vec<u8>) -> (r: Result<
        (),
        anyhow::Error,
    >)
        ensures
            exists|filled: &mut Vec<u8>| #[trigger]
                call_ensures(fill_random, (filled,), r) && *filled == *old(page) && *final(filled)
                    == *final(page),
    {
        fill_random(page)
    }

    fn fault_out_exclusive(&self, page_offset: PageNumber, page: &Vec<u8>) -> (r: Result<
        (),
        anyhow::Error,
    >)
        ensures
            r is Ok,
    {
        Ok(())
    }
}

/// Which way a page travels between memory and a file.
#[derive(Clone, Copy, PartialEq, Eq, Structural, Debug)]
pub enum Direction {
    /// From the file into the page.
    In,
    /// From the page to the file.
    Out,
}

/// A transfer of one page from or to a file in progress: how many bytes went
/// through, and the file offset of the next one.
#[derive(Clone, Copy, PartialEq, Eq, Structural, Debug)]
pub struct Transfer {
    pub direction: Direction,
    pub done: usize,
    pub offset: u64,
}

/// What a read or write at the transfer's offset came to.
#[derive(Clone, Copy, PartialEq, Eq, Structural, Debug)]
pub enum TransferEvent {
    /// This many bytes went through.
    Moved(usize),
    /// The call was interrupted before anything went through.
    Interrupted,
    /// The call failed.
    Failed,
}

/// Why a page could not be transferred.
#[derive(Clone, Copy, PartialEq, Eq, Structural, Debug)]
pub enum TransferError {
    /// The page lies behind the end of the file.
    UnexpectedEof,
    /// The file takes no more bytes.
    WriteZero,
    /// A call failed.
    Failed,
}

/// What to do next.
#[derive(Clone, Copy, PartialEq, Eq, Structural, Debug)]
pub enum TransferStep {
    /// Make the next call at the offset of the transfer.
    Again(Transfer),
    /// The page went through; of a page that was read, the bytes behind the
    /// end of the file are zeros.
    Complete,
    /// Give up.
    Refused(TransferError),
}

impl Transfer {
    /// The transfer of page `page_offset` is `done` bytes along. Behind the
    /// last byte of the last page the offset wraps around.
    pub open spec fn wf(self, page_offset: PageNumber) -> bool {
        &&& page_offset.wf()
        &&& self.done <= PAGE_SIZE
        &&& self.offset == (page_offset.number * 4096 + self.done) % 0x1_0000_0000_0000_0000
    }

    /// Starts the transfer of page `page_offset`.
    pub fn start(direction: Direction, page_offset: PageNumber) -> (r: Self)
        requires
            page_offset.wf(),
        ensures
            r.wf(page_offset),
            r.direction == direction,
            r.done == 0,
    {
        Transfer { direction, done: 0, offset: page_offset.vaddr_base() }
    }

    /// What follows a call.
    pub open spec fn spec_step(self, event: TransferEvent) -> TransferStep {
        match event {
            TransferEvent::Interrupted => TransferStep::Again(self),
            TransferEvent::Failed => TransferStep::Refused(TransferError::Failed),
            TransferEvent::Moved(n) => if n == 0 {
                match self.direction {
                    Direction::In => if self.done == 0 {
                        TransferStep::Refused(TransferError::UnexpectedEof)
                    } else {
                        TransferStep::Complete
                    },
                    Direction::Out => TransferStep::Refused(TransferError::WriteZero),
                }
            } else if self.done + n == PAGE_SIZE {
                TransferStep::Complete
            } else {
                TransferStep::Again(
                    Transfer {
                        direction: self.direction,
                        done: (self.done + n) as usize,
                        offset: ((self.offset + n) % 0x1_0000_0000_0000_0000) as u64,
                    },
                )
            },
        }
    }

    /// Goes on after a call. A call moves no more than what is left of the
    /// page.
    pub fn step(self, event: TransferEvent) -> (r: TransferStep)
        requires
            self.done < PAGE_SIZE,
            event matches TransferEvent::Moved(n) ==> self.done + n <= PAGE_SIZE,
        ensures
            r == self.spec_step(event),
            r matches TransferStep::Again(next) ==> {
                &&& next.done < PAGE_SIZE
                &&& forall|page_offset: PageNumber|
                    self.wf(page_offset) ==> #[trigger] next.wf(page_offset)
            },
    {
        match event {
            TransferEvent::Interrupted => TransferStep::Again(self),
            TransferEvent::Failed => TransferStep::Refused(TransferError::Failed),
            TransferEvent::Moved(n) => {
                if n == 0 {
                    match self.direction {
                        Direction::In => if self.done == 0 {
                            TransferStep::Refused(TransferError::UnexpectedEof)
                        } else {
                            TransferStep::Complete
                        },
                        Direction::Out => TransferStep::Refused(TransferError::WriteZero),
                    }
                } else {
                    let done: usize = self.done + n;
                    if done == PAGE_SIZE {
                        TransferStep::Complete
                    } else {
                        TransferStep::Again(
                            Transfer {
                                direction: self.direction,
                                done,
                                offset: self.offset.wrapping_add(n as u64),
                            },
                        )
                    }
                }
            },
        }
    }
}

} // verus!
