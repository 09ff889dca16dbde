//! The queue of page-in and write-back work on memory objects.
//!
//! Work is queued per object slot. A slot is queued at most once; a request
//! for a slot that is queued already joins the queued work. A worker takes
//! the entries in the order in which they were queued.
use vstd::prelude::*;
use std::collections::{HashMap, VecDeque};
use crate::icache::{ICache, Notified};
use crate::inline_list::InlineList;
use crate::memory::PAGE_SIZE;
use crate::page_store::{Holder, PageStore, StoreView};

verus! {

broadcast use vstd::std_specs::hash::group_hash_axioms;

/// What has to be done for a slot.
#[derive(Clone, Copy, PartialEq, Eq, Structural, Debug)]
pub enum OpType {
    /// Fault the page in.
    Init,
    /// Write the resident page back.
    Flush,
}

/// Queued work: the slot, the callbacks that wait for it, and what has to be
/// done. A callback is named by a ticket of its owner.
pub struct QueueEntry {
    pub slot: usize,
    pub callbacks: InlineList,
    pub op_type: OpType,
}

/// A request for work on a slot.
#[derive(Clone, Copy, PartialEq, Eq, Structural, Debug)]
pub struct EnqueueEntry {
    pub slot: usize,
    pub op_type: OpType,
    pub callback: Option<u64>,
}

#[verifier::ext_equal]
pub struct EntryView {
    pub slot: usize,
    pub callbacks: Seq<u64>,
    pub op_type: OpType,
}

impl View for QueueEntry {
    type V = EntryView;

    open spec fn view(&self) -> EntryView {
        EntryView { slot: self.slot, callbacks: self.callbacks@, op_type: self.op_type }
    }
}

/// The work queue.
pub struct Queue {
    pub queue: VecDeque<QueueEntry>,
    /// The absolute index of each queued slot.
    pub already_in_queue: HashMap<u64, u64>,
    /// The absolute index of the first entry.
    pub base: u64,
}

impl View for Queue {
    type V = Seq<EntryView>;

    open spec fn view(&self) -> Seq<EntryView> {
        Seq::new(self.queue@.len(), |i: int| self.queue@[i]@)
    }
}

/// Whether slot `slot` is queued.
pub open spec fn is_queued(q: Seq<EntryView>, slot: usize) -> bool {
    exists|i: int| 0 <= i < q.len() && #[trigger] q[i].slot == slot
}

/// Where slot `slot` is queued.
pub open spec fn place_of(q: Seq<EntryView>, slot: usize) -> int {
    choose|i: int| 0 <= i < q.len() && #[trigger] q[i].slot == slot
}

/// No slot is queued twice.
pub open spec fn slots_distinct(q: Seq<EntryView>) -> bool {
    forall|i: int, j: int|
        #![trigger q[i], q[j]]
        0 <= i < j < q.len() ==> q[i].slot != q[j].slot
}

/// The callbacks of a request: one, or none.
pub open spec fn request_callbacks(callback: Option<u64>) -> Seq<u64> {
    match callback {
        Some(ticket) => seq![ticket],
        None => seq![],
    }
}

/// The queue once `request` joined the work that is queued for its slot: its
/// callback waits along, and a write-back supersedes a page-in.
pub open spec fn joined(q: Seq<EntryView>, request: EnqueueEntry) -> Seq<EntryView> {
    let i = place_of(q, request.slot);
    q.update(
        i,
        EntryView {
            slot: request.slot,
            callbacks: q[i].callbacks + request_callbacks(request.callback),
            op_type: if request.op_type == OpType::Flush {
                OpType::Flush
            } else {
                q[i].op_type
            },
        },
    )
}

/// The queue once `request` was queued behind all others.
pub open spec fn appended(q: Seq<EntryView>, request: EnqueueEntry) -> Seq<EntryView> {
    q.push(
        EntryView {
            slot: request.slot,
            callbacks: request_callbacks(request.callback),
            op_type: request.op_type,
        },
    )
}

/// The absolute index of the first entry once an entry was taken: the count
/// starts anew when the queue is empty.
pub open spec fn base_after(queue: Queue) -> int {
    if queue@.len() == 1 {
        0
    } else {
        queue.base + 1
    }
}

impl Queue {
    /// The index knows every queued slot, and no other, at its place.
    pub open spec fn wf(self) -> bool {
        let q = self@;
        let index = self.already_in_queue@;
        &&& index.dom().finite()
        &&& q.len() <= usize::MAX
        &&& self.base + q.len() <= u64::MAX
        &&& forall|i: int|
            #![trigger q[i]]
            0 <= i < q.len() ==> index.contains_key(q[i].slot as u64) && index[q[i].slot as u64]
                == self.base + i
        &&& forall|k: u64| #[trigger]
            index.contains_key(k) ==> {
                &&& self.base <= index[k] < self.base + q.len()
                &&& q[index[k] - self.base].slot == k
            }
    }

    /// There is an absolute index left for another entry.
    pub open spec fn has_room(self) -> bool {
        self.base + self@.len() < u64::MAX
    }

    /// An empty queue.
    pub fn new() -> (r: Self)
        ensures
            r.wf(),
            r@ == Seq::<EntryView>::empty(),
            r.base == 0,
    {
        let r = Queue { queue: VecDeque::new(), already_in_queue: HashMap::new(), base: 0 };
        assert(r@ =~= Seq::<EntryView>::empty());
        r
    }

    /// Takes the entry that was queued first.
    pub fn dequeue(&mut self) -> (r: Option<QueueEntry>)
        requires
            old(self).wf(),
        ensures
            final(self).wf(),
            match r {
                Some(entry) => {
                    &&& old(self)@.len() > 0
                    &&& entry@ == old(self)@[0]
                    &&& final(self)@ == old(self)@.drop_first()
                    &&& final(self).base == base_after(*old(self))
                },
                None => old(self)@.len() == 0 && final(self)@ == old(self)@ && final(self).base
                    == old(self).base,
            },
    {
        let ghost q = self@;
        let ghost base = self.base;
        let entry: QueueEntry = match self.queue.pop_front() {
            Some(entry) => entry,
            None => {
                return None;
            },
        };
        let ghost index = self.already_in_queue@;
        assert(q[0] == entry@);
        self.already_in_queue.remove(&(entry.slot as u64));
        assert(self@ =~= q.drop_first());
        if self.queue.len() == 0 {
            // makes the indices nicer to reason about
            self.base = 0;
        } else {
            self.base = self.base + 1;
        }
        proof {
            let rest = self@;
            let left = self.already_in_queue@;
            assert forall|i: int| #![trigger rest[i]] 0 <= i < rest.len() implies left.contains_key(
                rest[i].slot as u64,
            ) && left[rest[i].slot as u64] == self.base + i by {
                assert(rest[i] == q[i + 1]);
                assert(index[q[i + 1].slot as u64] == base + i + 1);
                assert(index[q[0].slot as u64] == base);
            }
            assert forall|k: u64| #[trigger] left.contains_key(k) implies {
                &&& self.base <= left[k] < self.base + rest.len()
                &&& rest[left[k] - self.base].slot == k
            } by {
                assert(index.contains_key(k));
                assert(q[index[k] - base].slot == k);
                assert(index[k] != base);
                assert(rest[index[k] - base - 1] == q[index[k] - base]);
            }
        }
        Some(entry)
    }

    /// Queues a request, unless it is not necessary any more (`Err(None)`) or
    /// the queue is full (`Err(Some(..))`).
    ///
    /// `resident` tells whether the page of the slot is there. A page that is
    /// there stays, so a page-in of it is not necessary; a write-back is only
    /// ever asked for a page that is there.
    pub fn enqueue(&mut self, enqueue: EnqueueEntry, resident: bool, queue_limit: usize) -> (r: Result<
        (),
        Option<EnqueueEntry>,
    >)
        requires
            old(self).wf(),
            old(self).has_room(),
            enqueue.op_type == OpType::Flush ==> resident,
            !resident && is_queued(old(self)@, enqueue.slot) ==> old(self)@[place_of(
                old(self)@,
                enqueue.slot,
            )].op_type == OpType::Init,
        ensures
            final(self).wf(),
            final(self).base == old(self).base,
            if enqueue.op_type == OpType::Init && resident {
                r == Err::<(), Option<EnqueueEntry>>(None) && final(self)@ == old(self)@
            } else if is_queued(old(self)@, enqueue.slot) {
                r is Ok && final(self)@ == joined(old(self)@, enqueue)
            } else if old(self)@.len() >= queue_limit {
                r == Err::<(), Option<EnqueueEntry>>(Some(enqueue)) && final(self)@ == old(self)@
            } else {
                r is Ok && final(self)@ == appended(old(self)@, enqueue)
            },
    {
        let ghost q = self@;
        let ghost index = self.already_in_queue@;
        if enqueue.op_type == OpType::Init && resident {
            return Err(None);
        }
        let key: u64 = enqueue.slot as u64;
        let found: Option<u64> = match self.already_in_queue.get(&key) {
            Some(at) => Some(*at),
            None => None,
        };
        match found {
            Some(at) => {
                let i: usize = (at - self.base) as usize;
                proof {
                    assert(q[i as int].slot == enqueue.slot);
                    lemma_place_unique(*self, enqueue.slot, i as int);
                }
                if let Some(entry) = self.queue.remove(i) {
                    assert(entry@ == q[i as int]);
                    let mut callbacks: InlineList = entry.callbacks;
                    if let Some(ticket) = enqueue.callback {
                        callbacks.push(ticket);
                    }
                    let op_type: OpType = match (enqueue.op_type, entry.op_type) {
                        (OpType::Flush, OpType::Init) => OpType::Flush,
                        _ => entry.op_type,
                    };
                    assert(callbacks@ =~= q[i as int].callbacks + request_callbacks(
                        enqueue.callback,
                    ));
                    self.queue.insert(i, QueueEntry { slot: enqueue.slot, callbacks, op_type });
                }
                assert(self@ =~= joined(q, enqueue));
                proof {
                    let now = self@;
                    assert forall|k: int| #![trigger now[k]] 0 <= k < now.len() implies
                        index.contains_key(now[k].slot as u64) && index[now[k].slot as u64]
                        == self.base + k by {
                        assert(now[k].slot == q[k].slot);
                    }
                    assert forall|k: u64| #[trigger] index.contains_key(k) implies {
                        &&& self.base <= index[k] < self.base + now.len()
                        &&& now[index[k] - self.base].slot == k
                    } by {
                        assert(now[index[k] - self.base].slot == q[index[k] - self.base].slot);
                    }
                }
                Ok(())
            },
            None => {
                proof {
                    if is_queued(q, enqueue.slot) {
                        let i = place_of(q, enqueue.slot);
                        assert(index.contains_key(q[i].slot as u64));
                    }
                }
                if self.queue.len() >= queue_limit {
                    return Err(Some(enqueue));
                }
                let mut callbacks: InlineList = InlineList::new();
                if let Some(ticket) = enqueue.callback {
                    callbacks.push(ticket);
                }
                assert(callbacks@ =~= request_callbacks(enqueue.callback));
                let abs_index: u64 = self.base + self.queue.len() as u64;
                self.queue.push_back(
                    QueueEntry { slot: enqueue.slot, callbacks, op_type: enqueue.op_type },
                );
                self.already_in_queue.insert(key, abs_index);
                assert(self@ =~= appended(q, enqueue));
                proof {
                    let now = self@;
                    let known = self.already_in_queue@;
                    assert(self.queue.len() == now.len());
                    assert forall|k: int| #![trigger now[k]] 0 <= k < now.len() implies
                        known.contains_key(now[k].slot as u64) && known[now[k].slot as u64]
                        == self.base + k by {
                        if k < q.len() {
                            assert(now[k] == q[k]);
                            assert(q[k].slot != enqueue.slot);
                        }
                    }
                    assert forall|k: u64| #[trigger] known.contains_key(k) implies {
                        &&& self.base <= known[k] < self.base + now.len()
                        &&& now[known[k] - self.base].slot == k
                    } by {
                        if k != key {
                            assert(index.contains_key(k));
                            assert(now[known[k] - self.base] == q[known[k] - self.base]);
                        }
                    }
                }
                Ok(())
            },
        }
    }
}

/// A queued slot has one place.
pub proof fn lemma_place_unique(queue: Queue, slot: usize, i: int)
    requires
        queue.wf(),
        0 <= i < queue@.len(),
        queue@[i].slot == slot,
    ensures
        is_queued(queue@, slot),
        place_of(queue@, slot) == i,
{
    let q = queue@;
    let j = place_of(q, slot);
    assert(q[j].slot == slot);
    assert(queue.already_in_queue@[q[i].slot as u64] == queue.base + i);
    assert(queue.already_in_queue@[q[j].slot as u64] == queue.base + j);
}

/// No slot is ever queued twice.
pub proof fn law_queued_once(queue: Queue)
    requires
        queue.wf(),
    ensures
        slots_distinct(queue@),
{
    let q = queue@;
    assert forall|i: int, j: int| #![trigger q[i], q[j]] 0 <= i < j < q.len() implies q[i].slot
        != q[j].slot by {
        assert(queue.already_in_queue@[q[i].slot as u64] == queue.base + i);
        assert(queue.already_in_queue@[q[j].slot as u64] == queue.base + j);
    }
}

/// All callbacks that wait, in the order of their entries.
pub open spec fn waiting(q: Seq<EntryView>) -> Seq<u64>
    decreases q.len(),
{
    if q.len() == 0 {
        seq![]
    } else {
        q[0].callbacks + waiting(q.drop_first())
    }
}

/// A queued request's callback is not lost: it is the last one to wait for
/// its slot.
pub proof fn law_callback_waits(q: Seq<EntryView>, request: EnqueueEntry, ticket: u64)
    requires
        request.callback == Some(ticket),
        slots_distinct(q),
    ensures
        is_queued(q, request.slot) ==> {
            let i = place_of(q, request.slot);
            joined(q, request)[i].callbacks == q[i].callbacks.push(ticket)
        },
        !is_queued(q, request.slot) ==> appended(q, request).last().callbacks == seq![ticket],
{
    if is_queued(q, request.slot) {
        let i = place_of(q, request.slot);
        assert(q[i].callbacks + seq![ticket] =~= q[i].callbacks.push(ticket));
    }
}

/// A request that joins or is appended adds its callback to those that wait,
/// and takes none away.
pub proof fn law_waiting_grows(q: Seq<EntryView>, request: EnqueueEntry)
    ensures
        is_queued(q, request.slot) ==> waiting(joined(q, request)).to_multiset() == waiting(
            q,
        ).to_multiset().add(request_callbacks(request.callback).to_multiset()),
        !is_queued(q, request.slot) ==> waiting(appended(q, request)) == waiting(q)
            + request_callbacks(request.callback),
{
    let more = request_callbacks(request.callback);
    if is_queued(q, request.slot) {
        let i = place_of(q, request.slot);
        lemma_waiting_update(q, i, joined(q, request)[i], more);
    } else {
        lemma_waiting_push(q, appended(q, request).last());
    }
}

proof fn lemma_waiting_push(q: Seq<EntryView>, e: EntryView)
    ensures
        waiting(q.push(e)) == waiting(q) + e.callbacks,
    decreases q.len(),
{
    reveal_with_fuel(waiting, 2);
    if q.len() == 0 {
        assert(q.push(e).drop_first() =~= Seq::<EntryView>::empty());
        assert(waiting(q.push(e)) =~= waiting(q) + e.callbacks);
    } else {
        assert(q.push(e).drop_first() =~= q.drop_first().push(e));
        lemma_waiting_push(q.drop_first(), e);
        assert(waiting(q.push(e)) =~= waiting(q) + e.callbacks);
    }
}

proof fn lemma_waiting_update(q: Seq<EntryView>, i: int, e: EntryView, more: Seq<u64>)
    requires
        0 <= i < q.len(),
        e.callbacks == q[i].callbacks + more,
    ensures
        waiting(q.update(i, e)).to_multiset() == waiting(q).to_multiset().add(more.to_multiset()),
    decreases q.len(),
{
    broadcast use vstd::seq_lib::group_to_multiset_ensures;

    let rest = waiting(q.drop_first());
    if i == 0 {
        assert(q.update(i, e).drop_first() =~= q.drop_first());
        vstd::seq_lib::lemma_multiset_commutative(q[0].callbacks, more);
        vstd::seq_lib::lemma_multiset_commutative(e.callbacks, rest);
        vstd::seq_lib::lemma_multiset_commutative(q[0].callbacks, rest);
        assert(waiting(q.update(i, e)).to_multiset() =~= waiting(q).to_multiset().add(
            more.to_multiset(),
        ));
    } else {
        let tail = q.drop_first();
        assert(q.update(i, e).drop_first() =~= tail.update(i - 1, e));
        lemma_waiting_update(tail, i - 1, e, more);
        vstd::seq_lib::lemma_multiset_commutative(
            q[0].callbacks,
            waiting(tail.update(i - 1, e)),
        );
        vstd::seq_lib::lemma_multiset_commutative(q[0].callbacks, waiting(tail));
        assert(waiting(q.update(i, e)).to_multiset() =~= waiting(q).to_multiset().add(
            more.to_multiset(),
        ));
    }
}

/// Every queued write-back of a slot that is still alive has a page to write
/// back.
pub open spec fn queue_ok(st: StoreView, q: Seq<EntryView>) -> bool {
    forall|i: int|
        #![trigger q[i]]
        0 <= i < q.len() ==> q[i].slot < st.slots.len() && (q[i].op_type == OpType::Flush
            && st.slots[q[i].slot as int].refs > 0 ==> st.slots[q[i].slot as int].page is Some)
}

/// The object manager: the work queue, how much it takes, and whether it was
/// closed.
pub struct ObjectManager {
    pub queue: Queue,
    pub queue_limit: usize,
    pub closed: bool,
}

/// What became of a request.
#[derive(Clone, Copy, PartialEq, Eq, Structural, Debug)]
pub enum EnqueueStep {
    /// The work is queued; the worker has to be woken.
    Queued,
    /// There is nothing to do: the request's callback succeeds at once.
    Unnecessary,
    /// The queue is full: the request has to be made again after an entry
    /// was taken.
    Full,
    /// The manager was closed: nobody will do the work.
    Closed,
}

/// What the worker gets when it asks for work.
pub enum DequeueStep {
    /// Work on an entry; whoever waits for room has to be woken.
    Task(QueueEntry),
    /// Wait until something is queued.
    Wait,
    /// The manager was closed: stop.
    Closed,
}

/// What the worker has to do for an entry.
pub enum TaskStep {
    /// Nothing: nobody maps the page any more, and the callbacks go unheard.
    Abandoned(InlineList),
    /// Nothing: the page is there.
    Resident(Task),
    /// Read page `page_offset` of `object`.
    FaultIn { task: Task, object: u64, page_offset: u64 },
    /// Write `bytes` to page `page_offset` of `object`.
    FaultOut { task: Task, object: u64, page_offset: u64, bytes: Vec<u8> },
}

/// Work in progress on a slot, which the worker keeps alive meanwhile.
pub struct Task {
    pub slot: usize,
    pub callbacks: InlineList,
}

/// How work ended: the callbacks to run, and the error to tell them.
pub struct TaskResult {
    pub callbacks: InlineList,
    pub error: Option<anyhow::Error>,
}

/// What asking for work does and returns.
pub open spec fn enqueued(
    st: StoreView,
    a: ObjectManager,
    b: ObjectManager,
    request: EnqueueEntry,
    r: EnqueueStep,
) -> bool {
    let q = a.queue@;
    let resident = st.slots[request.slot as int].page is Some;
    &&& b.queue_limit == a.queue_limit
    &&& b.closed == a.closed
    &&& b.queue.base == a.queue.base
    &&& if request.op_type == OpType::Flush && !resident {
        r == EnqueueStep::Unnecessary && b.queue@ == q
    } else if a.closed {
        r == EnqueueStep::Closed && b.queue@ == q
    } else if request.op_type == OpType::Init && resident {
        r == EnqueueStep::Unnecessary && b.queue@ == q
    } else if is_queued(q, request.slot) {
        r == EnqueueStep::Queued && b.queue@ == joined(q, request)
    } else if q.len() >= a.queue_limit {
        r == EnqueueStep::Full && b.queue@ == q
    } else {
        r == EnqueueStep::Queued && b.queue@ == appended(q, request)
    }
}

/// What starting the work on an entry does and returns.
pub open spec fn task_begun(a: StoreView, b: StoreView, entry: EntryView, r: TaskStep) -> bool {
    let slot = a.slots[entry.slot as int];
    if slot.refs == 0 {
        &&& r matches TaskStep::Abandoned(callbacks)
        &&& callbacks@ == entry.callbacks
        &&& b == a
    } else {
        &&& b == a.hold_slot(entry.slot as int, Holder::Worker)
        &&& match entry.op_type {
            OpType::Init => if slot.page is Some {
                &&& r matches TaskStep::Resident(task)
                &&& task.works_on(entry)
            } else {
                &&& r matches TaskStep::FaultIn { task, object, page_offset }
                &&& task.works_on(entry)
                &&& object == slot.object
                &&& page_offset == slot.page_offset
            },
            OpType::Flush => {
                &&& r matches TaskStep::FaultOut { task, object, page_offset, bytes }
                &&& task.works_on(entry)
                &&& object == slot.object
                &&& page_offset == slot.page_offset
                &&& bytes@ == a.bytes(slot.page->0 as int)
            },
        }
    }
}

impl Task {
    /// The task is the work on `entry`.
    pub open spec fn works_on(self, entry: EntryView) -> bool {
        &&& self.slot == entry.slot
        &&& self.callbacks@ == entry.callbacks
    }
}

/// The store once the page of slot `s` was read, or could not be.
pub open spec fn fault_in_store(
    st: StoreView,
    s: int,
    outcome: Result<Vec<u8>, anyhow::Error>,
) -> StoreView {
    match outcome {
        Ok(bytes) => if st.slots[s].page is None {
            st.fill_slot(s, bytes@)
        } else {
            st
        },
        Err(_) => st,
    }
}

/// The worker holds slot `s`.
pub open spec fn worker_holds(st: StoreView, s: int) -> bool {
    &&& 0 <= s < st.slots.len()
    &&& st.slots[s].holders@.contains(Holder::Worker)
}

/// The worker holds no slot.
pub open spec fn worker_idle(st: StoreView) -> bool {
    forall|s: int|
        0 <= s < st.slots.len() ==> !(#[trigger] st.slots[s]).holders@.contains(Holder::Worker)
}

impl ObjectManager {
    pub open spec fn wf(self) -> bool {
        self.queue.wf()
    }

    /// A manager whose queue takes `queue_limit` entries.
    pub fn new(queue_limit: usize) -> (r: Self)
        ensures
            r.wf(),
            r.queue@ == Seq::<EntryView>::empty(),
            r.queue.base == 0,
            r.queue.has_room(),
            r.queue_limit == queue_limit,
            !r.closed,
    {
        ObjectManager { queue: Queue::new(), queue_limit, closed: false }
    }

    /// Closes the manager: the worker stops and nothing is queued any more.
    pub fn close(&mut self)
        requires
            old(self).wf(),
        ensures
            final(self).wf(),
            final(self).closed,
            final(self).queue == old(self).queue,
            final(self).queue_limit == old(self).queue_limit,
    {
        self.closed = true;
    }

    /// Asks for work on a slot.
    ///
    /// A write-back means to write back the page that is there right now; if
    /// there is none, there is nothing to do.
    pub fn enqueue(
        &mut self,
        store: &PageStore,
        slot: usize,
        op_type: OpType,
        callback: Option<u64>,
    ) -> (r: EnqueueStep)
        requires
            old(self).wf(),
            old(self).queue.has_room(),
            queue_ok(store@, old(self).queue@),
            slot < store@.slots.len(),
            store@.slots[slot as int].refs > 0,
        ensures
            final(self).wf(),
            queue_ok(store@, final(self).queue@),
            enqueued(
                store@,
                *old(self),
                *final(self),
                EnqueueEntry { slot, op_type, callback },
                r,
            ),
    {
        let resident: bool = store.slots[slot].page.is_some();
        if op_type == OpType::Flush && !resident {
            return EnqueueStep::Unnecessary;
        }
        if self.closed {
            return EnqueueStep::Closed;
        }
        let ghost q = self.queue@;
        proof {
            if is_queued(q, slot) {
                let i = place_of(q, slot);
                assert(q[i].slot == slot);
            }
        }
        let request = EnqueueEntry { slot, op_type, callback };
        match self.queue.enqueue(request, resident, self.queue_limit) {
            Ok(()) => EnqueueStep::Queued,
            Err(None) => EnqueueStep::Unnecessary,
            Err(Some(_)) => EnqueueStep::Full,
        }
    }

    /// Asks to write back the page of a slot.
    pub fn enqueue_flush(&mut self, store: &PageStore, slot: usize, callback: Option<u64>) -> (r:
        EnqueueStep)
        requires
            old(self).wf(),
            old(self).queue.has_room(),
            queue_ok(store@, old(self).queue@),
            slot < store@.slots.len(),
            store@.slots[slot as int].refs > 0,
        ensures
            final(self).wf(),
            queue_ok(store@, final(self).queue@),
            enqueued(
                store@,
                *old(self),
                *final(self),
                EnqueueEntry { slot, op_type: OpType::Flush, callback },
                r,
            ),
    {
        self.enqueue(store, slot, OpType::Flush, callback)
    }

    /// Asks to fault in the page of a slot.
    pub fn enqueue_init(&mut self, store: &PageStore, slot: usize, callback: Option<u64>) -> (r:
        EnqueueStep)
        requires
            old(self).wf(),
            old(self).queue.has_room(),
            queue_ok(store@, old(self).queue@),
            slot < store@.slots.len(),
            store@.slots[slot as int].refs > 0,
        ensures
            final(self).wf(),
            queue_ok(store@, final(self).queue@),
            enqueued(
                store@,
                *old(self),
                *final(self),
                EnqueueEntry { slot, op_type: OpType::Init, callback },
                r,
            ),
    {
        self.enqueue(store, slot, OpType::Init, callback)
    }

    /// Asks for the next piece of work.
    pub fn dequeue(&mut self) -> (r: DequeueStep)
        requires
            old(self).wf(),
        ensures
            final(self).wf(),
            final(self).queue_limit == old(self).queue_limit,
            final(self).closed == old(self).closed,
            match r {
                DequeueStep::Closed => old(self).closed && *final(self) == *old(self),
                DequeueStep::Wait => !old(self).closed && old(self).queue@.len() == 0
                    && final(self).queue@ == old(self).queue@ && final(self).queue.base == old(
                    self,
                ).queue.base,
                DequeueStep::Task(entry) => {
                    &&& !old(self).closed
                    &&& old(self).queue@.len() > 0
                    &&& entry@ == old(self).queue@[0]
                    &&& final(self).queue@ == old(self).queue@.drop_first()
                    &&& final(self).queue.base == base_after(old(self).queue)
                },
            },
    {
        if self.closed {
            return DequeueStep::Closed;
        }
        match self.queue.dequeue() {
            Some(entry) => DequeueStep::Task(entry),
            None => DequeueStep::Wait,
        }
    }
}

impl Default for ObjectManager {
    /// A manager whose queue takes 1024 entries.
    fn default() -> (r: Self)
        ensures
            r.wf(),
            r.queue@ == Seq::<EntryView>::empty(),
            r.queue.base == 0,
            r.queue_limit == 1024,
            !r.closed,
    {
        Self::new(1024)
    }
}

/// Starts the work on an entry. The worker holds the slot until the work is
/// finished.
pub fn begin_task(store: &mut PageStore, entry: QueueEntry) -> (r: TaskStep)
    requires
        old(store)@.wf(),
        worker_idle(old(store)@),
        entry.slot < old(store)@.slots.len(),
        entry.op_type == OpType::Flush && old(store)@.slots[entry.slot as int].refs > 0 ==> old(
            store,
        )@.slots[entry.slot as int].page is Some,
    ensures
        final(store)@.wf(),
        task_begun(old(store)@, final(store)@, entry@, r),
{
    let slot: usize = entry.slot;
    assert(store@.slot_ok(slot as int));
    if store.slots[slot].refs == 0 {
        return TaskStep::Abandoned(entry.callbacks);
    }
    let ghost a = store@;
    store.hold_slot(slot, Ghost(Holder::Worker));
    let object: u64 = store.slots[slot].object;
    let page_offset: u64 = store.slots[slot].page_offset;
    let page: Option<usize> = store.slots[slot].page;
    let task = Task { slot, callbacks: entry.callbacks };
    match entry.op_type {
        OpType::Init => match page {
            Some(_) => TaskStep::Resident(task),
            None => TaskStep::FaultIn { task, object, page_offset },
        },
        OpType::Flush => {
            let page: usize = page.unwrap();
            proof {
                let holders = a.pages[page as int].holders@;
                let h = Holder::Slot { slot };
                assert(holders.contains(h));
                assert(holders.remove(h).len() + 1 == holders.len());
                assert(a.page_ok(page as int));
            }
            let bytes: Vec<u8> = store.copy_page_shared_to_exclusive(page);
            TaskStep::FaultOut { task, object, page_offset, bytes }
        },
    }
}

/// Ends work that read a page: the page becomes resident, unless it could
/// not be read. The worker lets go of the slot.
pub fn finish_fault_in<T: ICache>(
    store: &mut PageStore,
    icache: &mut Notified<T>,
    task: Task,
    outcome: Result<Vec<u8>, anyhow::Error>,
) -> (r: TaskResult)
    requires
        old(store)@.wf(),
        worker_holds(old(store)@, task.slot as int),
        outcome matches Ok(bytes) ==> bytes@.len() == PAGE_SIZE,
    ensures
        final(store)@.wf(),
        r.callbacks@ == task.callbacks@,
        r.error == outcome.err(),
        ({
            let filled = fault_in_store(old(store)@, task.slot as int, outcome);
            &&& final(store)@ == filled.release_slot(task.slot as int, Holder::Worker)
            &&& final(icache).invalidated() == old(icache).invalidated() + filled.release_slot_log(
                task.slot as int,
            )
        }),
{
    let slot: usize = task.slot;
    let error: Option<anyhow::Error> = match outcome {
        Ok(bytes) => {
            if store.slots[slot].page.is_none() {
                store.fill_slot(slot, bytes);
            }
            None
        },
        Err(error) => Some(error),
    };
    store.release_slot(slot, Ghost(Holder::Worker), icache);
    TaskResult { callbacks: task.callbacks, error }
}

/// Ends work that left the slot as it was: a write-back, or a page that was
/// there. The worker lets go of the slot.
pub fn finish_task<T: ICache>(
    store: &mut PageStore,
    icache: &mut Notified<T>,
    task: Task,
    outcome: Result<(), anyhow::Error>,
) -> (r: TaskResult)
    requires
        old(store)@.wf(),
        worker_holds(old(store)@, task.slot as int),
    ensures
        final(store)@.wf(),
        r.callbacks@ == task.callbacks@,
        r.error == outcome.err(),
        final(store)@ == old(store)@.release_slot(task.slot as int, Holder::Worker),
        final(icache).invalidated() == old(icache).invalidated() + old(store)@.release_slot_log(
            task.slot as int,
        ),
{
    store.release_slot(task.slot, Ghost(Holder::Worker), icache);
    let error: Option<anyhow::Error> = match outcome {
        Ok(()) => None,
        Err(error) => Some(error),
    };
    TaskResult { callbacks: task.callbacks, error }
}

} // verus!
