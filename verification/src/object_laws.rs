//! How pages of memory objects get into address spaces: the requests, the work
//! that they lead to, and what the guest sees in the end.
use vstd::prelude::*;
use crate::cpu_fabric::{CpuFabric, WorkerStep};
use crate::fault::MemoryFault;
use crate::icache::ICache;
use crate::io_mmu::IoMMU;
use crate::lookup_cache::LookupCache;
use crate::mapping_laws::law_map_device;
use crate::memory::MemProt;
use crate::object_manager::{worker_holds, EnqueueStep, OpType, Task, TaskResult, TaskStep};
use crate::page_store::{counts, Holder};
use crate::page_table::{entry_ok, me, PageSource};

verus! {

/// Somebody besides `h` and `k` would be a third one: two holders count for at
/// least two.
proof fn lemma_two_holders(refs: u64, holders: Set<Holder>, h: Holder, k: Holder)
    requires
        counts(refs, holders),
        holders.contains(h),
        holders.contains(k),
        h != k,
    ensures
        refs >= 2,
{
    assert(holders.remove(h).contains(k));
    assert(holders.remove(h).remove(k).len() + 2 == holders.len());
}

/// Asking for work never loses or reorders what is queued. A request that is
/// queued stands at the place of the request for the same slot, or behind all
/// others, and its callback waits behind those that wait there.
pub proof fn law_enqueue<T: ICache>(
    fabric: &mut CpuFabric<T>,
    slot: usize,
    op_type: OpType,
    callback: Option<u64>,
    r: EnqueueStep,
)
    requires
        call_ensures(CpuFabric::<T>::enqueue, (fabric, slot, op_type, callback), r),
    ensures
        final(fabric).store == old(fabric).store,
        r == EnqueueStep::Unnecessary <==> ((op_type == OpType::Flush
            && old(fabric).store@.slots[slot as int].page is None) || (op_type == OpType::Init
            && old(fabric).store@.slots[slot as int].page is Some && !old(
            fabric,
        ).object_manager.closed)),
        r == EnqueueStep::Closed <==> old(fabric).object_manager.closed && !(op_type
            == OpType::Flush && old(fabric).store@.slots[slot as int].page is None),
        r != EnqueueStep::Queued ==> final(fabric).object_manager.queue@ == old(
            fabric,
        ).object_manager.queue@,
        forall|i: int|
            #![trigger final(fabric).object_manager.queue@[i]]
            0 <= i < old(fabric).object_manager.queue@.len() ==> final(
                fabric
            ).object_manager.queue@[i].slot == old(fabric).object_manager.queue@[i].slot,
        forall|i: int|
            #![trigger final(fabric).object_manager.queue@[i]]
            0 <= i < old(fabric).object_manager.queue@.len() && old(
                fabric,
            ).object_manager.queue@[i].slot != slot ==> final(fabric).object_manager.queue@[i]
                == old(fabric).object_manager.queue@[i],
        r == EnqueueStep::Queued ==> exists|i: int|
            #![trigger final(fabric).object_manager.queue@[i]]
            {
                let q = old(fabric).object_manager.queue@;
                let e = final(fabric).object_manager.queue@[i];
                &&& 0 <= i <= q.len()
                &&& final(fabric).object_manager.queue@.len() == (if i < q.len() {
                    q.len()
                } else {
                    q.len() + 1
                })
                &&& e.slot == slot
                &&& callback matches Some(ticket) ==> e.callbacks.len() > 0 && e.callbacks.last()
                    == ticket
                &&& op_type == OpType::Flush ==> e.op_type == OpType::Flush
                &&& i < q.len() ==> {
                    &&& e.callbacks.len() == q[i].callbacks.len() + (if callback is Some {
                        1int
                    } else {
                        0int
                    })
                    &&& forall|k: int|
                        0 <= k < q[i].callbacks.len() ==> e.callbacks[k] == q[i].callbacks[k]
                    &&& op_type == OpType::Init ==> e.op_type == q[i].op_type
                }
                &&& i == q.len() ==> {
                    &&& e.callbacks.len() == (if callback is Some {
                        1int
                    } else {
                        0int
                    })
                    &&& e.op_type == op_type
                    &&& forall|k: int| 0 <= k < q.len() ==> (#[trigger] q[k]).slot != slot
                }
            },
{
    let q = old(fabric).object_manager.queue@;
    if r == EnqueueStep::Queued {
        if exists|i: int| 0 <= i < q.len() && #[trigger] q[i].slot == slot {
            let i = crate::object_manager::place_of(q, slot);
            assert(0 <= i < q.len() && q[i].slot == slot);
            let e = final(fabric).object_manager.queue@[i];
            assert(e.slot == slot);
        } else {
            let e = final(fabric).object_manager.queue@[q.len() as int];
            assert(e.slot == slot);
        }
    }
}

/// Work is done in the order in which it was queued, and on what the slot of
/// the request stands for: a page is read from, or the resident bytes are
/// written to, the page of the object that the slot names. A slot that nobody
/// maps any more is left alone.
pub proof fn law_next_task<T: ICache>(fabric: &mut CpuFabric<T>, r: WorkerStep)
    requires
        call_ensures(CpuFabric::<T>::next_task, (fabric,), r),
    ensures
        r is Closed <==> old(fabric).object_manager.closed,
        r is Wait <==> !old(fabric).object_manager.closed && old(fabric).object_manager.queue@.len()
            == 0,
        r is Work ==> {
            let q = old(fabric).object_manager.queue@;
            let rest = final(fabric).object_manager.queue@;
            &&& q.len() > 0
            &&& rest.len() == q.len() - 1
            &&& forall|i: int| 0 <= i < rest.len() ==> #[trigger] rest[i] == q[i + 1]
        },
        r matches WorkerStep::Work(step) ==> {
            let st = old(fabric).store@;
            let first = old(fabric).object_manager.queue@[0];
            let slot = st.slots[first.slot as int];
            match step {
                TaskStep::Abandoned(callbacks) => slot.refs == 0 && callbacks@ == first.callbacks,
                TaskStep::Resident(task) => slot.refs > 0 && first.op_type == OpType::Init
                    && slot.page is Some && task.slot == first.slot && task.callbacks@
                    == first.callbacks,
                TaskStep::FaultIn { task, object, page_offset } => slot.refs > 0 && first.op_type
                    == OpType::Init && slot.page is None && task.slot == first.slot
                    && task.callbacks@ == first.callbacks && object == slot.object && page_offset
                    == slot.page_offset,
                TaskStep::FaultOut { task, object, page_offset, bytes } => slot.refs > 0
                    && first.op_type == OpType::Flush && task.slot == first.slot && task.callbacks@
                    == first.callbacks && object == slot.object && page_offset == slot.page_offset
                    && bytes@ == st.host[st.pages[slot.page->0 as int].allocated_page.index as int].bytes,
            }
        },
{
}

/// What was read for a slot is what the guest sees where it maps the slot.
pub proof fn law_fault_in_then_load<T: ICache, C: LookupCache>(
    fabric: &mut CpuFabric<T>,
    task: Task,
    bytes: Vec<u8>,
    done: TaskResult,
    mmu: &IoMMU,
    cache: &mut C,
    a: u64,
    r: Result<u8, MemoryFault>,
)
    requires
        mmu.wf(*old(fabric)),
        worker_holds(old(fabric).store@, task.slot as int),
        old(fabric).store@.slots[task.slot as int].page is None,
        mmu.table@.contains_key(a / 4096),
        mmu.table@[a / 4096].source matches PageSource::Object { slot, .. } && slot == task.slot,
        call_ensures(CpuFabric::<T>::complete_fault_in, (fabric, task, Ok(bytes)), done),
        call_ensures(IoMMU::load_byte::<T, C>, (mmu, &*final(fabric), cache, a), r),
    ensures
        mmu.table@[a / 4096].protections.read ==> r == Ok::<u8, MemoryFault>(
            bytes@[a as int % 4096],
        ),
        !mmu.table@[a / 4096].protections.read ==> (r matches Err(fault) && fault.vaddr == a),
        done.callbacks@ == task.callbacks@,
        done.error is None,
{
    let st = old(fabric).store@;
    let n = a / 4096;
    let s = task.slot as int;
    assert(entry_ok(st, mmu.table.space@, n, mmu.table@[n]));
    assert(st.slot_ok(s));
    lemma_two_holders(
        st.slots[s].refs,
        st.slots[s].holders@,
        me(mmu.table.space@, n),
        Holder::Worker,
    );
    assert(final(fabric).store@.slots[s].page == Some(st.pages.len() as usize));
    assert(final(fabric).store@.wf());
    assert(final(fabric).store@.host.len() == st.host.len() + 1);
}

/// The guest sees the object that it mapped: when an object is mapped at
/// `base`, the work for the page `k / 4096` pages above `base` reads page
/// `k / 4096` of that object, and once it is done the byte at `base + k` is
/// byte `k` of the object.
pub proof fn law_object_byte<T: ICache, C: LookupCache>(
    mmu: &mut IoMMU,
    mapping: &mut CpuFabric<T>,
    base: u64,
    size: u64,
    device: u64,
    shared: bool,
    prot: MemProt,
    starting: &mut CpuFabric<T>,
    task: Task,
    object: u64,
    page_offset: u64,
    ending: &mut CpuFabric<T>,
    bytes: Vec<u8>,
    done: TaskResult,
    cache: &mut C,
    k: u64,
    r: Result<u8, MemoryFault>,
)
    requires
        call_ensures(
            IoMMU::map_device_dyn::<T>,
            (mmu, mapping, base, size, device, shared, prot),
            Ok(()),
        ),
        k < size,
        prot.read,
        old(starting).store@ == final(mapping).store@,
        call_ensures(
            CpuFabric::<T>::next_task,
            (starting,),
            WorkerStep::Work(TaskStep::FaultIn { task, object, page_offset }),
        ),
        final(mmu).table@[((base + k) / 4096) as u64].source matches PageSource::Object { slot, .. }
            && slot == task.slot,
        *old(ending) == *final(starting),
        final(mmu).wf(*old(ending)),
        worker_holds(old(ending).store@, task.slot as int),
        call_ensures(CpuFabric::<T>::complete_fault_in, (ending, task, Ok(bytes)), done),
        call_ensures(
            IoMMU::load_byte::<T, C>,
            (&*final(mmu), &*final(ending), cache, (base + k) as u64),
            r,
        ),
    ensures
        object == device,
        page_offset == k / 4096,
        r == Ok::<u8, MemoryFault>(bytes@[k - page_offset * 4096]),
{
    law_map_device(mmu, mapping, base, size, device, shared, prot, Ok(()));
    law_next_task(starting, WorkerStep::Work(TaskStep::FaultIn { task, object, page_offset }));
    let a = (base + k) as u64;
    let n = a / 4096;
    assert(a == base + k);
    assert(base <= n * 4096 < base + size);
    assert(final(mmu).table@.contains_key(n));
    assert(final(mmu).table@[n].source is Object);
    law_fault_in_then_load(ending, task, bytes, done, &*final(mmu), cache, a, r);
}

} // verus!
