//! The dirty state of a page.
//!
//! The state has two bits: `DIRTY`, set by every write that has to be
//! recorded, and `FLUSHING`, set while a flush epoch is open. Writers only
//! ever set `DIRTY`; whoever flushes opens an epoch by trading `DIRTY` for
//! `FLUSHING`, and closes it by clearing `FLUSHING` alone. A write that lands
//! in between therefore stays recorded for the next flush.
use vstd::prelude::*;
use crate::memory::{DIRTY_FLAG_FLUSHING, DIRTY_FLAG_IS_DIRTY};

verus! {

pub open spec fn has_dirty(flags: u8) -> bool {
    flags % 2 == 1
}

pub open spec fn has_flushing(flags: u8) -> bool {
    flags / 2 == 1
}

/// The state with `DIRTY` set.
pub open spec fn with_dirty(flags: u8) -> u8 {
    if has_dirty(flags) {
        flags
    } else {
        (flags + 1) as u8
    }
}

/// The state in which an open epoch is found or opened: a dirty page trades
/// its bit for an epoch, an epoch that is open already is joined.
pub open spec fn with_epoch(flags: u8) -> u8 {
    if flags == DIRTY_FLAG_IS_DIRTY {
        DIRTY_FLAG_FLUSHING
    } else {
        flags
    }
}

/// The state once the epoch is closed.
pub open spec fn without_epoch(flags: u8) -> u8 {
    if has_flushing(flags) {
        (flags - 2) as u8
    } else {
        flags
    }
}

/// Records a write.
pub fn set_dirty(flags: u8) -> (r: u8)
    requires
        flags <= 3,
    ensures
        r == with_dirty(flags),
        r <= 3,
        has_dirty(r),
        has_flushing(r) == has_flushing(flags),
{
    if flags % 2 == 1 {
        flags
    } else {
        flags + DIRTY_FLAG_IS_DIRTY
    }
}

/// Opens or joins a flush epoch; `None` means that nothing is pending.
pub fn open_epoch(flags: u8) -> (r: Option<u8>)
    requires
        flags <= 3,
    ensures
        flags == 0 <==> r is None,
        r matches Some(next) ==> next == with_epoch(flags) && next <= 3 && has_flushing(next),
{
    if flags == 0 {
        None
    } else if flags == DIRTY_FLAG_IS_DIRTY {
        Some(DIRTY_FLAG_FLUSHING)
    } else {
        Some(flags)
    }
}

/// Closes the epoch. Tells whether it was still open, which one of the
/// flushers that race for it learns.
pub fn close_epoch(flags: u8) -> (r: (u8, bool))
    requires
        flags <= 3,
    ensures
        r.0 == without_epoch(flags),
        r.0 <= 3,
        r.1 == has_flushing(flags),
{
    if flags / 2 == 1 {
        (flags - DIRTY_FLAG_FLUSHING, true)
    } else {
        (flags, false)
    }
}

/// A write that lands while an epoch is open is never lost: the page is
/// dirty after the epoch was closed.
pub proof fn law_write_survives_epoch(flags: u8)
    requires
        flags <= 3,
    ensures
        has_dirty(without_epoch(with_dirty(with_epoch(flags)))),
{
}

/// Of the flushers that joined one epoch, only the first to close it finds
/// it open.
pub proof fn law_epoch_closes_once(flags: u8)
    requires
        flags <= 3,
    ensures
        !has_flushing(without_epoch(flags)),
        without_epoch(without_epoch(flags)) == without_epoch(flags),
{
}

/// A page that nobody writes is clean after one flush, unless a write was
/// pending behind an epoch that was open before.
pub proof fn law_flush_cleans(flags: u8)
    requires
        flags < 3,
    ensures
        without_epoch(with_epoch(flags)) == 0,
{
}

} // verus!
