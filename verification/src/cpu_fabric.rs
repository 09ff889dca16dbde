//! Shared per-machine state connecting CPUs, MMUs, and memory.
//!
//! A [`CpuFabric`] bundles the state that every address space of an emulated
//! machine must agree on: the host memory with its pages and object slots,
//! the global exclusive monitor backing load-/store-exclusive semantics, the
//! queue of page-in and write-back work, and the machine's instruction cache.
use vstd::prelude::*;
use crate::exclusive_monitor::{
    ExclusiveMonitor, HostPointer, ReservationSlot, Version, BUCKET_COUNT,
};
use crate::icache::{ICache, Notified};
use crate::memory::{IoMMUIdentifier, PagePointer, PAGE_SIZE};
use crate::object_manager::{
    base_after, begin_task, enqueued, fault_in_store, finish_fault_in, finish_task, queue_ok, task_begun,
    worker_holds, worker_idle, DequeueStep, EnqueueEntry, EnqueueStep, EntryView, ObjectManager,
    OpType, Task, TaskResult, TaskStep,
};
use crate::page_store::{Holder, PageStore, StoreView};
use crate::page_table::{me, table_wf, PageEntry};

verus! {

/// The shared state of one emulated machine.
pub struct CpuFabric<T: ICache> {
    pub exclusive_monitor: ExclusiveMonitor,
    pub object_manager: ObjectManager,
    pub store: PageStore,
    pub instruction_cache: Notified<T>,
    /// The next identity token that was not given out yet.
    pub next_token: u64,
    /// Address spaces are numbered; this is the next number.
    pub spaces: Ghost<nat>,
}

/// No page and no slot is held by an address space that was not numbered
/// yet.
pub open spec fn spaces_bounded(st: StoreView, spaces: nat) -> bool {
    &&& forall|b: int, space: nat, n: u64|
        0 <= b < st.pages.len() && #[trigger] st.pages[b].holders@.contains(me(space, n)) ==> space
            < spaces
    &&& forall|s: int, space: nat, n: u64|
        0 <= s < st.slots.len() && #[trigger] st.slots[s].holders@.contains(me(space, n)) ==> space
            < spaces
}

/// Every bucket of the exclusive monitor has a next version.
pub open spec fn versions_left<T: ICache>(fabric: CpuFabric<T>) -> bool {
    forall|ptr: HostPointer| #[trigger] fabric.exclusive_monitor.has_version(ptr)
}

impl<T: ICache> CpuFabric<T> {
    /// The invariant of the shared state.
    pub open spec fn wf(self) -> bool {
        &&& self.store@.wf()
        &&& spaces_bounded(self.store@, self.spaces@)
        &&& self.exclusive_monitor.wf()
        &&& self.object_manager.wf()
        &&& queue_ok(self.store@, self.object_manager.queue@)
    }

    /// Whether there is an identity token left.
    pub open spec fn has_token(self) -> bool {
        self.next_token < u64::MAX
    }

    /// A fabric without memory for a machine with the given instruction
    /// cache.
    pub fn new(instruction_cache: T) -> (r: Self)
        ensures
            r.wf(),
            r.has_token(),
            r.instruction_cache.inner() == instruction_cache,
            r.instruction_cache.invalidated() == Seq::<PagePointer>::empty(),
            r.object_manager.queue@ == Seq::<EntryView>::empty(),
            r.object_manager.queue.base == 0,
            r.object_manager.queue.has_room(),
            r.object_manager.queue_limit == 1024,
            !r.object_manager.closed,
            forall|i: int|
                0 <= i < BUCKET_COUNT ==> #[trigger] r.exclusive_monitor.reservations@[i] == (
                ReservationSlot { ptr: None, version: Version { number: 0 } }),
            versions_left(r),
            r.next_token == 0,
            r.spaces@ == 0,
            worker_idle(r.store@),
            r.store@.pages.len() == 0,
            r.store@.host.len() == 0,
            r.store@.slots.len() == 0,
    {
        CpuFabric {
            exclusive_monitor: ExclusiveMonitor::new(),
            object_manager: ObjectManager::new(1024),
            store: PageStore::new(),
            instruction_cache: Notified::new(instruction_cache),
            next_token: 0,
            spaces: Ghost(0),
        }
    }

    /// Returns the machine's instruction cache.
    pub fn icache(&self) -> (r: &T)
        ensures
            *r == self.instruction_cache.inner(),
    {
        self.instruction_cache.cache()
    }

    /// Returns the machine's exclusive monitor.
    pub fn exclusive_monitor(&self) -> (r: &ExclusiveMonitor)
        ensures
            *r == self.exclusive_monitor,
    {
        &self.exclusive_monitor
    }

    /// A fresh identity token.
    pub(crate) fn unique_token(&mut self) -> (r: IoMMUIdentifier)
        requires
            old(self).has_token(),
        ensures
            r.token == old(self).next_token,
            *final(self) == (CpuFabric {
                next_token: (old(self).next_token + 1) as u64,
                ..*old(self)
            }),
    {
        let token: u64 = self.next_token;
        self.next_token = token + 1;
        IoMMUIdentifier { token }
    }
}

/// What the worker has to do next.
pub enum WorkerStep {
    /// Work on a task.
    Work(TaskStep),
    /// Wait until something is queued.
    Wait,
    /// The manager was closed: stop.
    Closed,
}

impl<T: ICache> CpuFabric<T> {
    /// Asks for work on a slot that is mapped somewhere.
    pub fn enqueue(&mut self, slot: usize, op_type: OpType, callback: Option<u64>) -> (r: EnqueueStep)
        requires
            old(self).wf(),
            old(self).object_manager.queue.has_room(),
            slot < old(self).store@.slots.len(),
            old(self).store@.slots[slot as int].refs > 0,
        ensures
            final(self).wf(),
            final(self).store == old(self).store,
            final(self).instruction_cache == old(self).instruction_cache,
            final(self).exclusive_monitor == old(self).exclusive_monitor,
            final(self).next_token == old(self).next_token,
            final(self).spaces == old(self).spaces,
            enqueued(
                old(self).store@,
                old(self).object_manager,
                final(self).object_manager,
                EnqueueEntry { slot, op_type, callback },
                r,
            ),
    {
        self.object_manager.enqueue(&self.store, slot, op_type, callback)
    }

    /// Takes the next piece of work off the queue and starts it.
    pub fn next_task(&mut self) -> (r: WorkerStep)
        requires
            old(self).wf(),
            worker_idle(old(self).store@),
        ensures
            final(self).wf(),
            final(self).instruction_cache == old(self).instruction_cache,
            final(self).exclusive_monitor == old(self).exclusive_monitor,
            final(self).next_token == old(self).next_token,
            final(self).spaces == old(self).spaces,
            final(self).object_manager.closed == old(self).object_manager.closed,
            final(self).object_manager.queue_limit == old(self).object_manager.queue_limit,
            ({
                let q = old(self).object_manager.queue@;
                if old(self).object_manager.closed {
                    &&& r is Closed
                    &&& final(self).store@ == old(self).store@
                    &&& final(self).object_manager == old(self).object_manager
                } else if q.len() == 0 {
                    &&& r is Wait
                    &&& final(self).store@ == old(self).store@
                    &&& final(self).object_manager.queue@ == q
                    &&& final(self).object_manager.queue.base == old(
                        self,
                    ).object_manager.queue.base
                } else {
                    &&& r matches WorkerStep::Work(step)
                    &&& task_begun(old(self).store@, final(self).store@, q[0], step)
                    &&& final(self).object_manager.queue@ == q.drop_first()
                    &&& final(self).object_manager.queue.base == base_after(
                        old(self).object_manager.queue,
                    )
                }
            }),
    {
        let ghost q = self.object_manager.queue@;
        let ghost a = self.store@;
        match self.object_manager.dequeue() {
            DequeueStep::Closed => WorkerStep::Closed,
            DequeueStep::Wait => WorkerStep::Wait,
            DequeueStep::Task(entry) => {
                assert(q[0] == entry@);
                let step = begin_task(&mut self.store, entry);
                proof {
                    assert forall|i: int| #![trigger q.drop_first()[i]] 0 <= i < q.drop_first().len() implies
                        q.drop_first()[i] == q[i + 1] by {}
                    lemma_slots_changed(a, self.store@, self.spaces@, q, q.drop_first());
                }
                WorkerStep::Work(step)
            },
        }
    }

    /// Ends work that read a page; gives the callbacks to run with the error
    /// to tell them.
    pub fn complete_fault_in(&mut self, task: Task, outcome: Result<Vec<u8>, anyhow::Error>) -> (r:
        TaskResult)
        requires
            old(self).wf(),
            worker_holds(old(self).store@, task.slot as int),
            outcome matches Ok(bytes) ==> bytes@.len() == PAGE_SIZE,
        ensures
            final(self).wf(),
            r.callbacks@ == task.callbacks@,
            r.error == outcome.err(),
            same_devices(*old(self), *final(self)),
            final(self).next_token == old(self).next_token,
            final(self).spaces == old(self).spaces,
            ({
                let filled = fault_in_store(old(self).store@, task.slot as int, outcome);
                &&& final(self).store@ == filled.release_slot(task.slot as int, Holder::Worker)
                &&& final(self).instruction_cache.invalidated() == old(
                    self,
                ).instruction_cache.invalidated() + filled.release_slot_log(task.slot as int)
            }),
    {
        let ghost a = self.store@;
        let ghost q = self.object_manager.queue@;
        let r = finish_fault_in(&mut self.store, &mut self.instruction_cache, task, outcome);
        proof {
            lemma_slots_changed(a, self.store@, self.spaces@, q, q);
        }
        r
    }

    /// Ends work that left the slot as it was; gives the callbacks to run
    /// with the error to tell them.
    pub fn complete_task(&mut self, task: Task, outcome: Result<(), anyhow::Error>) -> (r: TaskResult)
        requires
            old(self).wf(),
            worker_holds(old(self).store@, task.slot as int),
        ensures
            final(self).wf(),
            r.callbacks@ == task.callbacks@,
            r.error == outcome.err(),
            same_devices(*old(self), *final(self)),
            final(self).next_token == old(self).next_token,
            final(self).spaces == old(self).spaces,
            final(self).store@ == old(self).store@.release_slot(task.slot as int, Holder::Worker),
            final(self).instruction_cache.invalidated() == old(
                self,
            ).instruction_cache.invalidated() + old(self).store@.release_slot_log(
                task.slot as int,
            ),
    {
        let ghost a = self.store@;
        let ghost q = self.object_manager.queue@;
        let r = finish_task(&mut self.store, &mut self.instruction_cache, task, outcome);
        proof {
            lemma_slots_changed(a, self.store@, self.spaces@, q, q);
        }
        r
    }
}

/// Work on slots for the worker keeps the shared state valid.
proof fn lemma_slots_changed(
    a: StoreView,
    b: StoreView,
    spaces: nat,
    q: Seq<EntryView>,
    rest: Seq<EntryView>,
)
    requires
        spaces_bounded(a, spaces),
        queue_ok(a, q),
        forall|i: int| #![trigger rest[i]] 0 <= i < rest.len() ==> q.contains(rest[i]),
        b.slots.len() == a.slots.len(),
        a.pages.len() <= b.pages.len(),
        forall|s: int|
            #![trigger b.slots[s]]
            0 <= s < a.slots.len() ==> {
                &&& a.slots[s].refs == 0 ==> b.slots[s].refs == 0
                &&& a.slots[s].page is Some && b.slots[s].refs > 0 ==> b.slots[s].page is Some
            },
        forall|s: int, space: nat, n: u64|
            0 <= s < a.slots.len() && #[trigger] b.slots[s].holders@.contains(me(space, n))
                ==> a.slots[s].holders@.contains(me(space, n)),
        forall|i: int, space: nat, n: u64|
            0 <= i < a.pages.len() && #[trigger] b.pages[i].holders@.contains(me(space, n))
                ==> a.pages[i].holders@.contains(me(space, n)),
        forall|i: int, space: nat, n: u64|
            a.pages.len() <= i < b.pages.len() ==> !#[trigger] b.pages[i].holders@.contains(
                me(space, n),
            ),
    ensures
        spaces_bounded(b, spaces),
        queue_ok(b, rest),
{
    assert forall|i: int| #![trigger rest[i]] 0 <= i < rest.len() implies rest[i].slot < b.slots.len()
        && (rest[i].op_type == OpType::Flush && b.slots[rest[i].slot as int].refs > 0
        ==> b.slots[rest[i].slot as int].page is Some) by {
        let j = choose|j: int| 0 <= j < q.len() && q[j] == rest[i];
        assert(q[j] == rest[i]);
    }
}

/// The exclusive monitor and the work queue are as before.
pub open spec fn same_devices<T: ICache>(a: CpuFabric<T>, b: CpuFabric<T>) -> bool {
    &&& b.exclusive_monitor == a.exclusive_monitor
    &&& b.object_manager == a.object_manager
}

/// An address space that was not numbered yet holds nothing.
pub proof fn lemma_new_space(st: StoreView, spaces: nat)
    requires
        spaces_bounded(st, spaces),
    ensures
        table_wf(st, spaces, Map::<u64, PageEntry>::empty()),
{
}

} // verus!
