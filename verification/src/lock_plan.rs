//! Which of the sharded locks guard an access to guest memory, and the order
//! in which they are taken.
//!
//! Every access takes the locks of the cache lines it touches in ascending
//! order of their shard. All accesses agree on that one order, so no two of
//! them can wait for each other in a cycle.
use vstd::prelude::*;

verus! {

/// Number of locks; a prime, so that collisions are rare.
pub const SHARDED_LOCK_COUNT: usize = 127;

/// Size of a cache line in bytes.
pub const CACHE_LINE_SIZE: usize = 64;

/// The shards from `start` up to but not including `end`.
#[derive(Clone, Copy, PartialEq, Eq, Structural, Debug)]
pub struct ShardRange {
    pub start: usize,
    pub end: usize,
}

impl ShardRange {
    pub open spec fn contains(self, shard: int) -> bool {
        self.start <= shard < self.end
    }
}

/// Whether a byte of the `count` bytes from `addr` on lies in a cache line
/// that `shard` guards.
pub open spec fn guards(shard: int, addr: int, count: int) -> bool {
    exists|line: int|
        addr / 64 <= line <= (addr + count - 1) / 64 && #[trigger] (line % 127) == shard
}

/// The locks of an access of `size` bytes at `addr`, at most two, the
/// smaller shard first.
pub fn access_plan(addr: usize, size: usize) -> (r: (usize, Option<usize>))
    requires
        1 <= size < CACHE_LINE_SIZE,
        addr + size - 1 <= usize::MAX,
    ensures
        r.0 < SHARDED_LOCK_COUNT,
        guards(r.0 as int, addr as int, size as int),
        r.1 matches Some(second) ==> r.0 < second < SHARDED_LOCK_COUNT,
        forall|shard: int|
            guards(shard, addr as int, size as int) <==> (shard == r.0 || r.1 == Some(
                shard as usize,
            ) && 0 <= shard <= usize::MAX),
{
    let first_line: usize = addr / CACHE_LINE_SIZE;
    let last_line: usize = (addr + (size - 1)) / CACHE_LINE_SIZE;
    let i: usize = first_line % SHARDED_LOCK_COUNT;
    if first_line == last_line {
        proof {
            assert((first_line as int) % 127 == i);
        }
        return (i, None);
    }
    assert(last_line == first_line + 1);
    let j: usize = last_line % SHARDED_LOCK_COUNT;
    proof {
        assert((first_line as int) % 127 == i);
        assert((last_line as int) % 127 == j);
    }
    if i < j {
        (i, Some(j))
    } else {
        (j, Some(i))
    }
}

/// The locks of a bulk copy of `count` bytes from or to `addr`: two ranges,
/// the second one behind the first. A copy of nothing takes no lock.
pub fn bulk_plan(addr: usize, count: usize) -> (r: Option<(ShardRange, ShardRange)>)
    requires
        addr + count - 1 <= usize::MAX,
    ensures
        r is None <==> count == 0,
        r matches Some((low, high)) ==> {
            &&& low.start < low.end <= SHARDED_LOCK_COUNT
            &&& guards(low.start as int, addr as int, count as int)
            &&& high.start <= high.end <= SHARDED_LOCK_COUNT
            &&& high.start < high.end ==> low.end <= high.start
            &&& forall|shard: int|
                guards(shard, addr as int, count as int) <==> (low.contains(shard)
                    || #[trigger] high.contains(shard))
        },
{
    if count == 0 {
        return None;
    }
    let first_line: usize = addr / CACHE_LINE_SIZE;
    let last_line: usize = (addr + (count - 1)) / CACHE_LINE_SIZE;
    let nothing = ShardRange { start: 0, end: 0 };
    if last_line - first_line >= SHARDED_LOCK_COUNT - 1 {
        // every shard is touched
        proof {
            assert forall|shard: int| 0 <= shard < 127 implies guards(
                shard,
                addr as int,
                count as int,
            ) by {
                let base = first_line as int;
                let line = base + (shard - base % 127) % 127;
                assert(line % 127 == shard);
            }
        }
        return Some((ShardRange { start: 0, end: SHARDED_LOCK_COUNT }, nothing));
    }
    let first_shard: usize = first_line % SHARDED_LOCK_COUNT;
    let last_shard: usize = last_line % SHARDED_LOCK_COUNT;
    if first_shard <= last_shard {
        proof {
            assert(first_line / 127 == last_line / 127);
            assert forall|shard: int| first_shard <= shard <= last_shard implies guards(
                shard,
                addr as int,
                count as int,
            ) by {
                let line = first_line + (shard - first_shard);
                assert(line % 127 == shard);
            }
            assert forall|shard: int| guards(shard, addr as int, count as int) implies first_shard
                <= shard <= last_shard by {
                let line = choose|line: int|
                    first_line <= line <= last_line && #[trigger] (line % 127) == shard;
                assert(line / 127 == first_line as int / 127);
            }
        }
        Some((ShardRange { start: first_shard, end: last_shard + 1 }, nothing))
    } else {
        // the lines wrap around: the low group comes before the high group
        proof {
            assert(last_line / 127 == first_line / 127 + 1);
            assert forall|shard: int| first_shard <= shard < 127 implies guards(
                shard,
                addr as int,
                count as int,
            ) by {
                let line = first_line + (shard - first_shard);
                assert(line % 127 == shard);
            }
            assert forall|shard: int| 0 <= shard <= last_shard implies guards(
                shard,
                addr as int,
                count as int,
            ) by {
                let line = last_line - (last_shard - shard);
                assert(line % 127 == shard);
            }
            assert forall|shard: int| guards(shard, addr as int, count as int) implies (first_shard
                <= shard < 127 || 0 <= shard <= last_shard) by {
                let line = choose|line: int|
                    first_line <= line <= last_line && #[trigger] (line % 127) == shard;
                assert(line / 127 == first_line as int / 127 || line / 127 == last_line as int
                    / 127);
            }
        }
        Some(
            (
                ShardRange { start: 0, end: last_shard + 1 },
                ShardRange { start: first_shard, end: SHARDED_LOCK_COUNT },
            ),
        )
    }
}

} // verus!
