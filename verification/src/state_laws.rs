//! The states and tables around memory accesses: dirty bits, locks, pending
//! faults, status codes and host addresses.
use vstd::prelude::*;
use crate::dirty::{close_epoch, open_epoch, set_dirty};
use crate::exclusive_monitor::HostPointer;
use crate::exec_context::{FFISafeMemoryFault, MemOp};
use crate::fault::MemoryFault;
use crate::ffi_support::{host_pointer, IoMmuStatus, StrexStatus};
use crate::ir::builder::ExecIrBuilder;
use crate::ir::types::{IntWidth, TypeFull};
use crate::ir::vm_access::VmAccessKind;
use crate::lock_plan::{access_plan, bulk_plan, guards, ShardRange};
use crate::lowering::{exec_block_signature, ClifTy};
use crate::memory::Page;

verus! {

/// The two bits of the dirty state are kept apart: a write sets the low one alone,
/// closing an epoch clears the high one alone, and opening one trades the low one
/// for the high one unless an epoch is open already.
pub proof fn law_dirty_bits(flags: u8, set: u8, opened: Option<u8>, closed: (u8, bool))
    requires
        flags <= 3,
    ensures
        call_ensures(set_dirty, (flags,), set) ==> set % 2 == 1 && set / 2 == flags / 2,
        call_ensures(open_epoch, (flags,), opened) ==> (opened is None <==> flags == 0) && (
        opened matches Some(next) ==> next / 2 == 1 && (next % 2 == 1 <==> flags % 2 == 1 && flags / 2
            == 1)),
        call_ensures(close_epoch, (flags,), closed) ==> closed.0 / 2 == 0 && closed.0 % 2 == flags % 2
            && (closed.1 <==> flags / 2 == 1),
{
}

/// A fault that was recorded is taken once, as it was recorded.
pub proof fn law_fault_is_taken_once(
    context: &mut FFISafeMemoryFault,
    second: &mut FFISafeMemoryFault,
    third: &mut FFISafeMemoryFault,
    op: MemOp,
    error: MemoryFault,
    taken: Option<(MemoryFault, MemOp)>,
    again: Option<(MemoryFault, MemOp)>,
)
    requires
        call_ensures(FFISafeMemoryFault::set_fault, (context, op, error), ()),
        *old(second) == *final(context),
        call_ensures(FFISafeMemoryFault::take_memory_fault, (second,), taken),
        *old(third) == *final(second),
        call_ensures(FFISafeMemoryFault::take_memory_fault, (third,), again),
    ensures
        taken == Some((error, op)),
        again is None,
{
}

/// Compiled code tells the outcomes of a host access apart by their codes.
pub proof fn law_status_codes(done: IoMmuStatus, stored: StrexStatus, a: u8, b: u8)
    requires
        call_ensures(IoMmuStatus::code, (done,), a),
        call_ensures(StrexStatus::code, (stored,), b),
    ensures
        a == 0 <==> done is Done,
        a == 1 <==> done is Fault,
        b == 0 <==> stored is Stored,
        b == 1 <==> stored is Failed,
        b == 255 <==> stored is Fault,
{
}

/// Two bytes have one host address if and only if they are one byte, and the bytes
/// of a page lie side by side.
pub proof fn law_host_addresses(
    p: Page,
    q: Page,
    i: usize,
    j: usize,
    a: HostPointer,
    b: HostPointer,
)
    requires
        i < 4096,
        j < 4096,
        call_ensures(host_pointer, (p, i), a),
        call_ensures(host_pointer, (q, j), b),
    ensures
        a.addr == b.addr <==> p.ptr.page.index == q.ptr.page.index && i == j,
        p.ptr.page.index == q.ptr.page.index ==> a.addr - b.addr == i - j,
        a.addr % 4096 == i,
{
}

/// A load needs the page to be readable, a store needs it to be writable, and a
/// store is as wide as the value that it stores.
pub proof fn law_access_kind(
    kind: VmAccessKind,
    builder: ExecIrBuilder,
    width: IntWidth,
    perms: u8,
    op: MemOp,
)
    requires
        kind.ok(builder@),
        call_ensures(VmAccessKind::width, (&kind, &builder), width),
        call_ensures(VmAccessKind::required_perms, (&kind,), perms),
        call_ensures(VmAccessKind::mem_op, (&kind,), op),
    ensures
        match kind {
            VmAccessKind::Load { width: loaded } => width == loaded && perms == 1 && op is Load,
            VmAccessKind::Store { value } => builder@.types[value.index as int] == TypeFull::Int(
                width,
            ) && perms == 2 && op is Store,
        },
{
}

/// Whether a shard is among those that a plan takes.
pub open spec fn takes(plan: (usize, Option<usize>), shard: int) -> bool {
    shard == plan.0 || (plan.1 matches Some(second) && shard == second)
}

/// An access holds the lock of every byte that it touches and no other lock, the
/// smaller one first, so that two accesses that touch one cache line exclude each
/// other and none waits for the other in a cycle.
pub proof fn law_access_locks(addr: usize, size: usize, plan: (usize, Option<usize>))
    requires
        1 <= size < 64,
        addr + size - 1 <= usize::MAX,
        call_ensures(access_plan, (addr, size), plan),
    ensures
        plan.1 matches Some(second) ==> plan.0 < second,
        forall|byte: int| addr <= byte < addr + size ==> takes(plan, #[trigger] (byte / 64) % 127),
        forall|shard: int| #[trigger]
            takes(plan, shard) ==> 0 <= shard < 127 && exists|byte: int|
                addr <= byte < addr + size && #[trigger] (byte / 64) % 127 == shard,
{
    assert forall|byte: int| addr <= byte < addr + size implies takes(
        plan,
        #[trigger] (byte / 64) % 127,
    ) by {
        let line = byte / 64;
        let shard = line % 127;
        assert(guards(shard, addr as int, size as int));
        assert(shard == plan.0 || plan.1 == Some(shard as usize));
    }
    assert forall|shard: int| #[trigger] takes(plan, shard) implies 0 <= shard < 127 && exists|
        byte: int,
    |
        addr <= byte < addr + size && #[trigger] (byte / 64) % 127 == shard by {
        assert(shard == plan.0 || plan.1 == Some(shard as usize));
        assert(guards(shard, addr as int, size as int));
        lemma_guarded_byte(shard, addr as int, size as int);
    }
}

proof fn lemma_guarded_byte(shard: int, addr: int, count: int)
    requires
        0 <= addr,
        1 <= count,
        guards(shard, addr, count),
    ensures
        exists|byte: int| addr <= byte < addr + count && #[trigger] (byte / 64) % 127 == shard,
{
    let line = choose|line: int|
        addr / 64 <= line <= (addr + count - 1) / 64 && #[trigger] (line % 127) == shard;
    let byte = if line * 64 < addr {
        addr
    } else {
        line * 64
    };
    assert(byte / 64 == line);
    assert(addr <= byte < addr + count && (byte / 64) % 127 == shard);
}

/// Whether a shard is in one of two ranges.
pub open spec fn in_ranges(low: ShardRange, high: ShardRange, shard: int) -> bool {
    low.start <= shard < low.end || high.start <= shard < high.end
}

/// Copying many bytes holds the lock of every byte that it touches and no other
/// lock, in ascending order; copying none holds nothing.
pub proof fn law_bulk_locks(addr: usize, count: usize, plan: Option<(ShardRange, ShardRange)>)
    requires
        addr + count - 1 <= usize::MAX,
        call_ensures(bulk_plan, (addr, count), plan),
    ensures
        plan is None <==> count == 0,
        plan is Some ==> {
            let (low, high) = plan->0;
            &&& high.start < high.end ==> low.end <= high.start
            &&& forall|byte: int|
                addr <= byte < addr + count ==> in_ranges(low, high, #[trigger] (byte / 64) % 127)
            &&& forall|shard: int| #[trigger]
                in_ranges(low, high, shard) ==> exists|byte: int|
                    addr <= byte < addr + count && #[trigger] (byte / 64) % 127 == shard
        },
{
    if plan is Some {
        let (low, high) = plan->0;
        assert forall|byte: int| addr <= byte < addr + count implies in_ranges(
            low,
            high,
            #[trigger] (byte / 64) % 127,
        ) by {
            let line = byte / 64;
            let shard = line % 127;
            assert(guards(shard, addr as int, count as int));
            if !high.contains(shard) {
                assert(low.contains(shard));
            }
        }
        assert forall|shard: int| #[trigger] in_ranges(low, high, shard) implies exists|byte: int|
            addr <= byte < addr + count && #[trigger] (byte / 64) % 127 == shard by {
            if !high.contains(shard) {
                assert(low.contains(shard));
            }
            assert(guards(shard, addr as int, count as int));
            lemma_guarded_byte(shard, addr as int, count as int);
        }
    }
}

/// A compiled block is called with six pointers.
pub proof fn law_block_signature(ptr_ty: ClifTy, r: Vec<ClifTy>)
    requires
        call_ensures(exec_block_signature, (ptr_ty,), r),
    ensures
        r@ == seq![ptr_ty, ptr_ty, ptr_ty, ptr_ty, ptr_ty, ptr_ty],
{
}

} // verus!
