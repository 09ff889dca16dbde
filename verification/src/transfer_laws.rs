//! What the transfers of pages from and to a file come to.
//!
//! A transfer makes calls at its offset until it is through. These laws speak
//! of the file as a sequence of bytes and of the calls as what they moved.
use vstd::prelude::*;
use crate::memory::{PageNumber, PAGE_SIZE};
use crate::memory_object::{
    Direction, Transfer, TransferError, TransferEvent, TransferStep,
};

verus! {

/// The transfer of a page at its start.
pub open spec fn started(direction: Direction, page_offset: PageNumber) -> Transfer {
    Transfer { direction, done: 0, offset: (page_offset.number * 4096) as u64 }
}

/// A transfer starts at the first byte of its page.
pub proof fn law_start(direction: Direction, page_offset: PageNumber, r: Transfer)
    requires
        page_offset.wf(),
        call_ensures(Transfer::start, (direction, page_offset), r),
    ensures
        r.direction == direction,
        r.done == 0,
        r.offset == page_offset.number * 4096,
{
}

/// What follows a call: an interrupted one is made again, a failed one is the
/// end, and otherwise the transfer is further along by what the call moved, at
/// the offset behind it. It is complete when the whole page went through. A
/// call that moves nothing ends it: there is no more to read, which is an error
/// only if nothing was read at all, or no more can be written.
pub proof fn law_step(transfer: Transfer, event: TransferEvent, r: TransferStep)
    requires
        transfer.done < 4096,
        event matches TransferEvent::Moved(n) ==> transfer.done + n <= 4096,
        call_ensures(Transfer::step, (transfer, event), r),
    ensures
        event is Interrupted ==> r == TransferStep::Again(transfer),
        event is Failed <==> r == TransferStep::Refused(TransferError::Failed),
        event matches TransferEvent::Moved(n) ==> {
            &&& 0 < n && transfer.done + n == 4096 ==> r is Complete
            &&& 0 < n && transfer.done + n < 4096 ==> {
                &&& r matches TransferStep::Again(next)
                &&& next.direction == transfer.direction
                &&& next.done == transfer.done + n
                &&& next.offset == (transfer.offset + n) % 0x1_0000_0000_0000_0000
            }
            &&& n == 0 && transfer.direction == Direction::Out ==> r == TransferStep::Refused(
                TransferError::WriteZero,
            )
            &&& n == 0 && transfer.direction == Direction::In && transfer.done == 0 ==> r
                == TransferStep::Refused(TransferError::UnexpectedEof)
            &&& n == 0 && transfer.direction == Direction::In && transfer.done > 0 ==> r is Complete
        },
{
}

/// A file once `data` was written at `at`. What the file is extended by reads
/// as zeros.
pub open spec fn overlaid(file: Seq<u8>, at: int, data: Seq<u8>) -> Seq<u8> {
    Seq::new(
        if at + data.len() > file.len() {
            (at + data.len()) as nat
        } else {
            file.len()
        },
        |i: int|
            if at <= i < at + data.len() {
                data[i - at]
            } else if i < file.len() {
                file[i]
            } else {
                0
            },
    )
}

/// A write moves no more than what is left of the page.
pub open spec fn writes(transfer: Transfer, event: TransferEvent) -> bool {
    event matches TransferEvent::Moved(n) ==> transfer.done + n <= PAGE_SIZE
}

/// The file, and where the transfer is, after the calls of `events` have
/// written to it.
pub open spec fn write_out(
    file: Seq<u8>,
    page: Seq<u8>,
    transfer: Transfer,
    events: Seq<TransferEvent>,
) -> (Seq<u8>, TransferStep)
    decreases events.len(),
{
    if events.len() == 0 {
        (file, TransferStep::Again(transfer))
    } else {
        let after = match events[0] {
            TransferEvent::Moved(n) => overlaid(
                file,
                transfer.offset as int,
                page.subrange(transfer.done as int, transfer.done + n),
            ),
            _ => file,
        };
        match transfer.spec_step(events[0]) {
            TransferStep::Again(next) => write_out(after, page, next, events.drop_first()),
            end => (after, end),
        }
    }
}

/// Every call of a write-out is one that can be made.
pub open spec fn all_write(transfer: Transfer, events: Seq<TransferEvent>) -> bool
    decreases events.len(),
{
    events.len() > 0 ==> {
        &&& writes(transfer, events[0])
        &&& transfer.spec_step(events[0]) matches TransferStep::Again(next) ==> all_write(
            next,
            events.drop_first(),
        )
    }
}

/// A read moves something unless it starts at the end of the file or behind
/// it, and nothing that is not in the file or has no place in the page.
pub open spec fn reads(file: Seq<u8>, transfer: Transfer, event: TransferEvent) -> bool {
    event matches TransferEvent::Moved(n) ==> {
        &&& transfer.done + n <= PAGE_SIZE
        &&& n == 0 <==> transfer.offset >= file.len()
        &&& n > 0 ==> transfer.offset + n <= file.len()
    }
}

/// The page with `data` at `at`.
pub open spec fn filled(page: Seq<u8>, at: int, data: Seq<u8>) -> Seq<u8> {
    Seq::new(
        page.len(),
        |i: int|
            if at <= i < at + data.len() {
                data[i - at]
            } else {
                page[i]
            },
    )
}

/// The page, and where the transfer is, after the calls of `events` have read
/// the file into it.
pub open spec fn read_in(
    file: Seq<u8>,
    page: Seq<u8>,
    transfer: Transfer,
    events: Seq<TransferEvent>,
) -> (Seq<u8>, TransferStep)
    decreases events.len(),
{
    if events.len() == 0 {
        (page, TransferStep::Again(transfer))
    } else {
        let after = match events[0] {
            TransferEvent::Moved(n) => if n == 0 {
                page
            } else {
                filled(
                    page,
                    transfer.done as int,
                    file.subrange(transfer.offset as int, transfer.offset + n),
                )
            },
            _ => page,
        };
        match transfer.spec_step(events[0]) {
            TransferStep::Again(next) => read_in(file, after, next, events.drop_first()),
            end => (after, end),
        }
    }
}

/// Every call of a read-in is one that can be made, and none fails.
pub open spec fn all_read(file: Seq<u8>, transfer: Transfer, events: Seq<TransferEvent>) -> bool
    decreases events.len(),
{
    events.len() > 0 ==> {
        &&& reads(file, transfer, events[0])
        &&& !(events[0] is Failed)
        &&& transfer.spec_step(events[0]) matches TransferStep::Again(next) ==> all_read(
            file,
            next,
            events.drop_first(),
        )
    }
}

/// What a page that was read in holds: the bytes of the file as far as they
/// go, and behind them what it held before.
pub open spec fn page_of_file(file: Seq<u8>, base: int, page: Seq<u8>) -> Seq<u8> {
    Seq::new(
        page.len(),
        |i: int|
            if base + i < file.len() {
                file[base + i]
            } else {
                page[i]
            },
    )
}

proof fn lemma_write_rest(
    file: Seq<u8>,
    page: Seq<u8>,
    page_offset: PageNumber,
    transfer: Transfer,
    events: Seq<TransferEvent>,
)
    requires
        transfer.wf(page_offset),
        transfer.direction == Direction::Out,
        transfer.done < PAGE_SIZE,
        page.len() == PAGE_SIZE,
        all_write(transfer, events),
        write_out(file, page, transfer, events).1 == TransferStep::Complete,
    ensures
        write_out(file, page, transfer, events).0 == overlaid(
            file,
            transfer.offset as int,
            page.subrange(transfer.done as int, 4096),
        ),
    decreases events.len(),
{
    assert(transfer.offset == page_offset.number * 4096 + transfer.done);
    match events[0] {
        TransferEvent::Moved(n) => {
            if let TransferStep::Again(next) = transfer.spec_step(events[0]) {
                let part = page.subrange(transfer.done as int, transfer.done + n);
                let after = overlaid(file, transfer.offset as int, part);
                assert(next.wf(page_offset));
                lemma_write_rest(after, page, page_offset, next, events.drop_first());
                assert(overlaid(
                    after,
                    next.offset as int,
                    page.subrange(next.done as int, 4096),
                ) =~= overlaid(
                    file,
                    transfer.offset as int,
                    page.subrange(transfer.done as int, 4096),
                ));
            }
        },
        TransferEvent::Interrupted => {
            lemma_write_rest(file, page, page_offset, transfer, events.drop_first());
        },
        TransferEvent::Failed => {},
    }
}

/// A write-out that is through has written the page, and nothing else: the
/// file holds it at its place, and all other bytes of the file are as they
/// were.
pub proof fn law_write_out(
    file: Seq<u8>,
    page: Seq<u8>,
    page_offset: PageNumber,
    events: Seq<TransferEvent>,
)
    requires
        page_offset.wf(),
        page.len() == PAGE_SIZE,
        all_write(started(Direction::Out, page_offset), events),
        write_out(file, page, started(Direction::Out, page_offset), events).1
            == TransferStep::Complete,
    ensures
        ({
            let base = page_offset.number * 4096;
            let after = write_out(file, page, started(Direction::Out, page_offset), events).0;
            &&& after == overlaid(file, base, page)
            &&& after.len() >= base + 4096
            &&& after.subrange(base, base + 4096) == page
            &&& forall|i: int|
                0 <= i < file.len() && !(base <= i < base + 4096) ==> #[trigger] after[i] == file[i]
        }),
{
    let base = page_offset.number * 4096;
    lemma_write_rest(file, page, page_offset, started(Direction::Out, page_offset), events);
    assert(page.subrange(0, 4096) =~= page);
    assert(overlaid(file, base, page).subrange(base, base + 4096) =~= page);
}

proof fn lemma_read_rest(
    file: Seq<u8>,
    page: Seq<u8>,
    page_offset: PageNumber,
    transfer: Transfer,
    events: Seq<TransferEvent>,
)
    requires
        transfer.wf(page_offset),
        transfer.direction == Direction::In,
        transfer.done < PAGE_SIZE,
        page.len() == PAGE_SIZE,
        all_read(file, transfer, events),
        !(read_in(file, page, transfer, events).1 is Again),
    ensures
        ({
            let base = page_offset.number * 4096;
            let (after, end) = read_in(file, page, transfer, events);
            &&& end == (if transfer.done == 0 && base >= file.len() {
                TransferStep::Refused(TransferError::UnexpectedEof)
            } else {
                TransferStep::Complete
            })
            &&& after == Seq::new(
                4096,
                |i: int|
                    if transfer.done <= i && base + i < file.len() {
                        file[base + i]
                    } else {
                        page[i]
                    },
            )
        }),
    decreases events.len(),
{
    let base = page_offset.number * 4096;
    assert(transfer.offset == base + transfer.done);
    let (last, _) = read_in(file, page, transfer, events);
    match events[0] {
        TransferEvent::Moved(n) => {
            if let TransferStep::Again(next) = transfer.spec_step(events[0]) {
                let part = file.subrange(transfer.offset as int, transfer.offset + n);
                let after = filled(page, transfer.done as int, part);
                assert(next.wf(page_offset));
                lemma_read_rest(file, after, page_offset, next, events.drop_first());
            }
            assert(last =~= Seq::new(
                4096,
                |i: int|
                    if transfer.done <= i && base + i < file.len() {
                        file[base + i]
                    } else {
                        page[i]
                    },
            ));
        },
        TransferEvent::Interrupted => {
            lemma_read_rest(file, page, page_offset, transfer, events.drop_first());
        },
        TransferEvent::Failed => {},
    }
}

/// A read-in that has come to an end, and in which no call has failed, has
/// filled the page with the bytes of the file as far as they go. It is
/// refused exactly if the page lies behind the end of the file.
pub proof fn law_read_in(
    file: Seq<u8>,
    page: Seq<u8>,
    page_offset: PageNumber,
    events: Seq<TransferEvent>,
)
    requires
        page_offset.wf(),
        page.len() == PAGE_SIZE,
        all_read(file, started(Direction::In, page_offset), events),
        !(read_in(file, page, started(Direction::In, page_offset), events).1 is Again),
    ensures
        ({
            let base = page_offset.number * 4096;
            let (after, end) = read_in(
                file,
                page,
                started(Direction::In, page_offset),
                events,
            );
            &&& end == (if base >= file.len() {
                TransferStep::Refused(TransferError::UnexpectedEof)
            } else {
                TransferStep::Complete
            })
            &&& after == page_of_file(file, base, page)
        }),
{
    let base = page_offset.number * 4096;
    lemma_read_rest(file, page, page_offset, started(Direction::In, page_offset), events);
    assert(read_in(file, page, started(Direction::In, page_offset), events).0 =~= page_of_file(
        file,
        base,
        page,
    ));
}

/// What was written out is read in again: once a page was written out, reading
/// it in succeeds and gives the page back, whatever the calls move at a time.
pub proof fn law_page_round_trip(
    file: Seq<u8>,
    page: Seq<u8>,
    page_offset: PageNumber,
    outs: Seq<TransferEvent>,
    scratch: Seq<u8>,
    ins: Seq<TransferEvent>,
)
    requires
        page_offset.wf(),
        page.len() == PAGE_SIZE,
        scratch.len() == PAGE_SIZE,
        all_write(started(Direction::Out, page_offset), outs),
        write_out(file, page, started(Direction::Out, page_offset), outs).1
            == TransferStep::Complete,
        ({
            let after = write_out(file, page, started(Direction::Out, page_offset), outs).0;
            &&& all_read(after, started(Direction::In, page_offset), ins)
            &&& !(read_in(after, scratch, started(Direction::In, page_offset), ins).1 is Again)
        }),
    ensures
        ({
            let after = write_out(file, page, started(Direction::Out, page_offset), outs).0;
            read_in(after, scratch, started(Direction::In, page_offset), ins) == (
                page,
                TransferStep::Complete,
            )
        }),
{
    let base = page_offset.number * 4096;
    let after = write_out(file, page, started(Direction::Out, page_offset), outs).0;
    law_write_out(file, page, page_offset, outs);
    law_read_in(after, scratch, page_offset, ins);
    assert(page_of_file(after, base, scratch) =~= page);
}

} // verus!
