use emu_core::compiler::{
    int_cmp_to_predicate, ir_type_to_llvm, to_cstr, Backend, CompileTier, LlvmPredicate, LlvmType,
};
use emu_core::cpu_fabric::{CpuFabric, WorkerStep};
use emu_core::dirty::{close_epoch, open_epoch, set_dirty};
use emu_core::exclusive_monitor::{
    reservation_index, ExclusiveMonitor, ExclusiveMonitorLoad, HostPointer, ReservationLost,
};
use emu_core::exec_context::{ExecContext, FFISafeMemoryFault, MemOp};
use emu_core::fault::{MemoryFault, MemoryFaultReason};
use emu_core::icache::ICache;
use emu_core::io_mmu::IoMMU;
use emu_core::ir::types::{IntCmp, IntWidth, TypeFull};
use emu_core::lock_plan::{access_plan, bulk_plan, ShardRange};
use emu_core::lookup_cache::{NoCache, Tlb};
use emu_core::memory::{MemProt, PageNumber, PagePointer, PAGE_SIZE, PAGE_SIZE_U64};
use emu_core::memory_object::{
    Direction, MemoryObject, OsRng, Transfer, TransferError, TransferEvent, TransferStep,
};
use emu_core::object_manager::{
    EnqueueEntry, EnqueueStep, ObjectManager, OpType, Queue, TaskStep,
};
use std::sync::Arc;

#[derive(Default)]
struct Invalidated {
    pages: Vec<usize>,
}

impl ICache for Invalidated {
    fn invalidate(&mut self, page: PagePointer) {
        self.pages.push(page.index);
    }
}

const RW: MemProt = MemProt { read: true, write: true, execute: false };
const RX: MemProt = MemProt { read: true, write: false, execute: true };
const BASE: u64 = PAGE_SIZE_U64 * 20;

const MONITORED: HostPointer = HostPointer { addr: 0x10000DEAD00BEEF };

/// Runs the two halves of an exclusive increment of two CPUs: both load
/// before either one stores. `first_load` and `first_store` say which CPU
/// goes first.
fn two_increments(first_load: usize, first_store: usize) -> u32 {
    let mut monitor = ExclusiveMonitor::new();
    let mut memory = 0_u32;
    let mut tokens = [None, None];
    for cpu in [first_load, 1 - first_load] {
        tokens[cpu] = Some(monitor.ldrex(MONITORED, || ExclusiveMonitorLoad::U8(0)));
    }
    for cpu in [first_store, 1 - first_store] {
        let token = tokens[cpu].unwrap();
        let stored = monitor.strex(MONITORED, token.version, || match token.value {
            ExclusiveMonitorLoad::U8(0) => Ok(()),
            _ => Err(ReservationLost),
        });
        if stored.is_ok() {
            memory += 1;
        }
    }
    memory
}

#[test]
fn exclusive_monitor_test_exclusive_monitor() {
    for (first_load, first_store) in [(0, 0), (0, 1), (1, 0), (1, 1)] {
        assert_eq!(two_increments(first_load, first_store), 1);
    }
}

#[test]
fn cpu_fabric_test_exclusive_monitor() {
    // the monitor of a machine, with the claim and the store apart
    for first_store in [0, 1] {
        let mut fabric = CpuFabric::new(Invalidated::default());
        let mut memory = 0_u32;
        let token = [
            fabric.exclusive_monitor.ldrex(MONITORED, || ExclusiveMonitorLoad::U8(0)),
            fabric.exclusive_monitor.ldrex(MONITORED, || ExclusiveMonitorLoad::U8(0)),
        ];
        for cpu in [first_store, 1 - first_store] {
            if token[cpu].value() == ExclusiveMonitorLoad::U8(0)
                && fabric.exclusive_monitor.claim(MONITORED, token[cpu].version)
            {
                memory += 1;
            }
        }
        assert_eq!(memory, 1);
    }
}

#[test]
fn sanity_check() {
    let strong = Arc::new("sanity check");
    let weak = Arc::downgrade(&strong);
    let strong_ptr = Arc::as_ptr(&strong);

    drop(strong);

    // Both point to the same object
    assert!(std::ptr::eq(strong_ptr, weak.as_ptr()));
}

#[test]
fn a_failing_store_keeps_the_reservation_used_up() {
    let mut monitor = ExclusiveMonitor::new();
    let token = monitor.ldrex(MONITORED, || ExclusiveMonitorLoad::U32(9));
    assert_eq!(token.value(), ExclusiveMonitorLoad::U32(9));
    let refused = monitor.strex(MONITORED, token.version, || Err(ReservationLost));
    assert_eq!(refused, Err(ReservationLost));
    let again = monitor.strex(MONITORED, token.version, || Ok(()));
    assert_eq!(again, Err(ReservationLost));
}

#[test]
fn an_alias_displaces_a_reservation() {
    let alias = (1..100_000u128)
        .map(|i| HostPointer { addr: MONITORED.addr + i })
        .find(|ptr| reservation_index(*ptr) == reservation_index(MONITORED))
        .unwrap();
    let other = HostPointer { addr: MONITORED.addr + 64 };
    assert_ne!(reservation_index(other), reservation_index(MONITORED));

    let mut monitor = ExclusiveMonitor::new();
    let token = monitor.ldrex(MONITORED, || ExclusiveMonitorLoad::U8(1));
    let _ = monitor.ldrex(alias, || ExclusiveMonitorLoad::U8(2));
    assert!(!monitor.claim(MONITORED, token.version));

    let token = monitor.ldrex(MONITORED, || ExclusiveMonitorLoad::U8(1));
    let _ = monitor.ldrex(other, || ExclusiveMonitorLoad::U8(2));
    assert!(monitor.claim(MONITORED, token.version));
}

#[test]
fn loads_convert_from_integers() {
    assert_eq!(ExclusiveMonitorLoad::from(1u8), ExclusiveMonitorLoad::U8(1));
    assert_eq!(ExclusiveMonitorLoad::from(2u16), ExclusiveMonitorLoad::U16(2));
    assert_eq!(ExclusiveMonitorLoad::from(3u32), ExclusiveMonitorLoad::U32(3));
    assert_eq!(ExclusiveMonitorLoad::from(4u64), ExclusiveMonitorLoad::U64(4));
    assert_eq!(ExclusiveMonitorLoad::from(5u128), ExclusiveMonitorLoad::U128(5));
}

fn request(slot: usize, op_type: OpType, callback: Option<u64>) -> EnqueueEntry {
    EnqueueEntry { slot, op_type, callback }
}

#[test]
fn the_queue_keeps_its_order_and_joins_requests() {
    let mut queue = Queue::new();
    assert_eq!(queue.enqueue(request(3, OpType::Init, Some(1)), false, 2), Ok(()));
    assert_eq!(queue.enqueue(request(5, OpType::Init, None), false, 2), Ok(()));
    // full for a new slot, not for one that is queued
    let third = request(7, OpType::Init, None);
    assert_eq!(queue.enqueue(third, false, 2), Err(Some(third)));
    for ticket in 10..30 {
        assert_eq!(queue.enqueue(request(3, OpType::Init, Some(ticket)), false, 2), Ok(()));
    }
    assert_eq!(queue.enqueue(request(5, OpType::Flush, Some(2)), true, 2), Ok(()));
    // what is there needs no loading
    assert_eq!(queue.enqueue(request(5, OpType::Init, None), true, 2), Err(None));

    let first = queue.dequeue().unwrap();
    assert_eq!((first.slot, first.op_type), (3, OpType::Init));
    assert_eq!(first.callbacks.len(), 21);
    assert_eq!(first.callbacks.get(0), 1);
    for i in 1..21 {
        assert_eq!(first.callbacks.get(i), 9 + i as u64);
    }
    let second = queue.dequeue().unwrap();
    assert_eq!((second.slot, second.op_type), (5, OpType::Flush));
    assert_eq!(second.callbacks.len(), 1);
    assert!(queue.dequeue().is_none());
    assert_eq!(queue.enqueue(third, false, 2), Ok(()));
    assert_eq!(queue.dequeue().unwrap().slot, 7);
}

#[test]
fn the_queue_numbers_its_entries_on() {
    let mut queue = Queue::new();
    assert_eq!(queue.base, 0);
    assert_eq!(queue.enqueue(request(3, OpType::Init, Some(1)), false, 4), Ok(()));
    assert_eq!(queue.enqueue(request(5, OpType::Init, Some(2)), false, 4), Ok(()));
    assert_eq!(queue.base, 0);
    assert_eq!(queue.dequeue().unwrap().slot, 3);
    assert_eq!(queue.base, 1);
    // joins the entry that is still there, and starts one of its own
    assert_eq!(queue.enqueue(request(5, OpType::Init, Some(3)), false, 4), Ok(()));
    assert_eq!(queue.enqueue(request(3, OpType::Init, Some(4)), false, 4), Ok(()));
    let second = queue.dequeue().unwrap();
    assert_eq!((second.slot, second.callbacks.len()), (5, 2));
    assert_eq!(queue.base, 2);
    let third = queue.dequeue().unwrap();
    assert_eq!((third.slot, third.callbacks.len()), (3, 1));
    // an empty queue starts anew
    assert_eq!(queue.base, 0);
    assert!(queue.dequeue().is_none());
}

#[test]
fn the_default_manager_takes_1024_entries() {
    assert_eq!(ObjectManager::default().queue_limit, 1024);
}

#[test]
fn a_new_machine_is_at_its_start() {
    let mut fabric = CpuFabric::new(Invalidated::default());
    assert_eq!(fabric.object_manager.queue_limit, 1024);
    assert_eq!(fabric.object_manager.queue.base, 0);
    assert_eq!(fabric.next_token, 0);
    assert!(fabric.icache().pages.is_empty());
    assert!(fabric.exclusive_monitor.reservations.iter().all(|slot| !slot.version.exhausted()));
    assert!(matches!(fabric.next_task(), WorkerStep::Wait));
    assert_eq!(IoMMU::new(&mut fabric).get_ident().token, 0);
    assert_eq!(IoMMU::new(&mut fabric).get_ident().token, 1);
}

/// A machine with two pages of object 77 mapped at `BASE`.
fn object_machine(shared: bool, prot: MemProt) -> (IoMMU, CpuFabric<Invalidated>, Tlb) {
    let mut fabric = CpuFabric::new(Invalidated::default());
    let mut mmu = IoMMU::new(&mut fabric);
    mmu.map_device_dyn(&mut fabric, BASE, 2 * PAGE_SIZE_U64, 77, shared, prot).unwrap();
    (mmu, fabric, Tlb::new())
}

/// Works the queue off: page `n` of the object holds the byte `n + 1`.
fn work_off(fabric: &mut CpuFabric<Invalidated>) -> Vec<(u64, Vec<u8>)> {
    let mut written = Vec::new();
    loop {
        match fabric.next_task() {
            WorkerStep::Wait | WorkerStep::Closed => return written,
            WorkerStep::Work(TaskStep::Abandoned(_)) => {}
            WorkerStep::Work(TaskStep::Resident(task)) => {
                assert!(fabric.complete_task(task, Ok(())).error.is_none());
            }
            WorkerStep::Work(TaskStep::FaultIn { task, object, page_offset }) => {
                assert_eq!(object, 77);
                let bytes = vec![page_offset as u8 + 1; PAGE_SIZE];
                assert!(fabric.complete_fault_in(task, Ok(bytes)).error.is_none());
            }
            WorkerStep::Work(TaskStep::FaultOut { task, object, page_offset, bytes }) => {
                assert_eq!(object, 77);
                written.push((page_offset, bytes));
                assert!(fabric.complete_task(task, Ok(())).error.is_none());
            }
        }
    }
}

#[test]
fn object_pages_are_faulted_in_and_written_back() {
    let (mmu, mut fabric, mut tlb) = object_machine(true, RW);
    let mut absent = mmu.fault_in_all_memory_objects(&fabric);
    absent.sort_unstable();
    assert_eq!(absent.len(), 2);
    for (ticket, slot) in absent.iter().enumerate() {
        let step = fabric.enqueue(*slot, OpType::Init, Some(ticket as u64));
        assert_eq!(step, EnqueueStep::Queued);
    }
    assert!(work_off(&mut fabric).is_empty());
    assert!(mmu.fault_in_all_memory_objects(&fabric).is_empty());
    assert_eq!(
        fabric.enqueue(absent[0], OpType::Init, None),
        EnqueueStep::Unnecessary
    );

    assert_eq!(mmu.load_byte(&fabric, &mut tlb, BASE + 5).unwrap(), 1);
    assert_eq!(mmu.load_byte(&fabric, &mut tlb, BASE + PAGE_SIZE_U64).unwrap(), 2);
    assert!(mmu.flush(&mut fabric).is_empty());
    mmu.store32_le(&mut fabric, &mut tlb, BASE + PAGE_SIZE_U64 - 2, 0x0403_0201).unwrap();

    let dirty = mmu.flush(&mut fabric);
    assert_eq!(dirty.len(), 2);
    for slot in dirty {
        assert_eq!(fabric.enqueue(slot, OpType::Flush, None), EnqueueStep::Queued);
    }
    let mut written = work_off(&mut fabric);
    written.sort();
    assert_eq!(written.len(), 2);
    assert_eq!(written[0].0, 0);
    assert_eq!(written[0].1[4090..], [1, 1, 1, 1, 1, 2]);
    assert_eq!(written[1].0, 1);
    assert_eq!(written[1].1[..4], [3, 4, 2, 2]);
    assert!(mmu.flush(&mut fabric).is_empty());
}

#[test]
fn what_nobody_maps_any_more_is_not_loaded() {
    let (mut mmu, mut fabric, _) = object_machine(false, RX);
    let absent = mmu.fault_in_all_memory_objects(&fabric);
    assert_eq!(fabric.enqueue(absent[0], OpType::Flush, None), EnqueueStep::Unnecessary);
    assert_eq!(fabric.enqueue(absent[0], OpType::Init, None), EnqueueStep::Queued);
    mmu.unmap(&mut fabric, BASE, 2 * PAGE_SIZE_U64).unwrap();
    assert!(matches!(fabric.next_task(), WorkerStep::Work(TaskStep::Abandoned(_))));
    assert!(matches!(fabric.next_task(), WorkerStep::Wait));
    fabric.object_manager.close();
    assert!(matches!(fabric.next_task(), WorkerStep::Closed));
}

#[test]
fn a_page_that_cannot_be_read_reaches_its_callbacks() {
    let (mmu, mut fabric, mut tlb) = object_machine(true, RW);
    let absent = mmu.fault_in_all_memory_objects(&fabric);
    assert_eq!(fabric.enqueue(absent[0], OpType::Init, Some(41)), EnqueueStep::Queued);
    let WorkerStep::Work(TaskStep::FaultIn { task, .. }) = fabric.next_task() else {
        panic!("there is a page to read");
    };
    let result = fabric.complete_fault_in(task, Err(anyhow::Error::msg("gone")));
    assert_eq!(result.callbacks.len(), 1);
    assert_eq!(result.callbacks.get(0), 41);
    assert_eq!(result.error.unwrap().to_string(), "gone");
    assert_eq!(mmu.fault_in_all_memory_objects(&fabric).len(), 2);
    assert!(mmu.load_byte(&fabric, &mut tlb, BASE).is_err());
}

#[test]
fn a_fork_sees_the_same_and_shares_only_what_is_shared() {
    let mut fabric = CpuFabric::new(Invalidated::default());
    let mut parent = IoMMU::new(&mut fabric);
    parent.map(&mut fabric, BASE, PAGE_SIZE_U64, false, true, RW).unwrap();
    parent.map(&mut fabric, BASE + PAGE_SIZE_U64, PAGE_SIZE_U64, false, false, RW).unwrap();
    let shared = BASE + 8;
    let private = BASE + PAGE_SIZE_U64 + 8;
    let mut cache = NoCache;
    parent.store64_le(&mut fabric, &mut cache, shared, 11).unwrap();
    parent.store64_le(&mut fabric, &mut cache, private, 22).unwrap();

    let before = parent.get_ident();
    let mut child = parent.fork(&mut fabric);
    assert_ne!(parent.get_ident(), before);
    assert_eq!(child.get_ident(), parent.get_ident());
    assert_eq!(child.load64_le(&fabric, &mut cache, shared).unwrap(), 11);
    assert_eq!(child.load64_le(&fabric, &mut cache, private).unwrap(), 22);

    // the private page is copied before it is written
    assert!(child.store64_le(&mut fabric, &mut cache, private, 33).is_err());
    child.copy_all_cow_pages(&mut fabric);
    child.store64_le(&mut fabric, &mut cache, private, 33).unwrap();
    child.store64_le(&mut fabric, &mut cache, shared, 44).unwrap();
    assert_eq!(parent.load64_le(&fabric, &mut cache, private).unwrap(), 22);
    assert_eq!(parent.load64_le(&fabric, &mut cache, shared).unwrap(), 44);
    assert_eq!(child.load64_le(&fabric, &mut cache, private).unwrap(), 33);
}

#[test]
fn a_fork_changes_the_identity_only_with_an_entry() {
    let mut fabric = CpuFabric::new(Invalidated::default());
    let mut parent = IoMMU::new(&mut fabric);
    let empty = parent.get_ident();
    assert_eq!(parent.fork(&mut fabric).get_ident(), empty);
    assert_eq!(parent.get_ident(), empty);

    parent.map(&mut fabric, BASE, PAGE_SIZE_U64, false, true, RW).unwrap();
    let shared = parent.get_ident();
    assert_ne!(shared, empty);
    assert_eq!(parent.fork(&mut fabric).get_ident(), shared);
    assert_eq!(parent.get_ident(), shared);

    parent.map(&mut fabric, BASE + PAGE_SIZE_U64, PAGE_SIZE_U64, false, false, RW).unwrap();
    let private = parent.get_ident();
    let child = parent.fork(&mut fabric);
    assert_ne!(parent.get_ident(), private);
    assert_eq!(child.get_ident(), parent.get_ident());

    // the page is copy-on-write already
    let again = parent.get_ident();
    assert_eq!(parent.fork(&mut fabric).get_ident(), again);
    assert_eq!(parent.get_ident(), again);
}

#[test]
fn copying_tells_the_cache_of_the_pages_that_nobody_holds_any_more() {
    let mut fabric = CpuFabric::new(Invalidated::default());
    let mut mmu = IoMMU::new(&mut fabric);
    let lent = fabric.store.lend(vec![6; PAGE_SIZE]);
    let size = PAGE_SIZE_U64;
    mmu.map_extern(&mut fabric, BASE, size, 0, lent, true, false, RW).unwrap();
    assert!(fabric.icache().pages.is_empty());
    mmu.copy_all_cow_pages(&mut fabric);
    assert_eq!(fabric.icache().pages, vec![lent.index]);
    mmu.store_byte(&mut fabric, &mut NoCache, BASE, 7).unwrap();
    assert_eq!(mmu.load_byte(&fabric, &mut NoCache, BASE).unwrap(), 7);
    assert_eq!(fabric.store.host[lent.index].bytes, vec![6; PAGE_SIZE]);
    // there is nothing left to copy
    mmu.copy_all_cow_pages(&mut fabric);
    assert_eq!(fabric.icache().pages.len(), 1);

    // what somebody else holds stays, and a last holder keeps its page
    mmu.map(&mut fabric, BASE + size, size, false, false, RW).unwrap();
    let mut child = mmu.fork(&mut fabric);
    child.copy_all_cow_pages(&mut fabric);
    assert_eq!(fabric.icache().pages.len(), 1);
    mmu.copy_all_cow_pages(&mut fabric);
    assert_eq!(fabric.icache().pages.len(), 1);
    mmu.unmap(&mut fabric, BASE, 2 * size).unwrap();
    assert_eq!(fabric.icache().pages.len(), 3);
}

#[test]
fn pages_of_a_mapping_have_memory_of_their_own() {
    for shared in [false, true] {
        let mut fabric = CpuFabric::new(Invalidated::default());
        let mut mmu = IoMMU::new(&mut fabric);
        mmu.map(&mut fabric, BASE, 3 * PAGE_SIZE_U64, false, shared, RW).unwrap();
        for n in 0..3 {
            mmu.store_byte(&mut fabric, &mut NoCache, BASE + n * PAGE_SIZE_U64, n as u8 + 1).unwrap();
        }
        for n in 0..3 {
            let byte = mmu.load_byte(&fabric, &mut NoCache, BASE + n * PAGE_SIZE_U64).unwrap();
            assert_eq!(byte, n as u8 + 1);
        }
    }
}

#[test]
fn private_object_pages_are_isolated() {
    // the same object twice, and a fork before its pages are there
    let (mut mmu, mut fabric, _) = object_machine(false, RW);
    let again = BASE + 8 * PAGE_SIZE_U64;
    mmu.map_device_dyn(&mut fabric, again, PAGE_SIZE_U64, 77, false, RW).unwrap();
    let child = mmu.fork(&mut fabric);
    for space in [&mmu, &child] {
        let absent = space.fault_in_all_memory_objects(&fabric);
        assert_eq!(absent.len(), 3);
        for slot in absent {
            assert_eq!(fabric.enqueue(slot, OpType::Init, None), EnqueueStep::Queued);
        }
    }
    assert!(work_off(&mut fabric).is_empty());
    assert_eq!(mmu.load_byte(&fabric, &mut NoCache, BASE).unwrap(), 1);
    mmu.store_byte(&mut fabric, &mut NoCache, BASE, 0x22).unwrap();
    assert_eq!(mmu.load_byte(&fabric, &mut NoCache, BASE).unwrap(), 0x22);
    assert_eq!(mmu.load_byte(&fabric, &mut NoCache, again).unwrap(), 1);
    assert_eq!(child.load_byte(&fabric, &mut NoCache, BASE).unwrap(), 1);
    child.store_byte(&mut fabric, &mut NoCache, BASE, 0x33).unwrap();
    assert_eq!(mmu.load_byte(&fabric, &mut NoCache, BASE).unwrap(), 0x22);
}

#[test]
fn a_private_page_is_isolated_after_a_fork() {
    let mut fabric = CpuFabric::new(Invalidated::default());
    let mut parent = IoMMU::new(&mut fabric);
    parent.map(&mut fabric, BASE, PAGE_SIZE_U64, false, false, RW).unwrap();
    parent.store_byte(&mut fabric, &mut NoCache, BASE, 0x11).unwrap();
    let mut child = parent.fork(&mut fabric);
    assert!(parent.store_byte(&mut fabric, &mut NoCache, BASE, 0x22).is_err());
    assert_eq!(child.load_byte(&fabric, &mut NoCache, BASE).unwrap(), 0x11);
    parent.copy_all_cow_pages(&mut fabric);
    parent.store_byte(&mut fabric, &mut NoCache, BASE, 0x22).unwrap();
    assert_eq!(child.load_byte(&fabric, &mut NoCache, BASE).unwrap(), 0x11);
    // the last holder keeps its page, the first one got a clean copy
    child.copy_all_cow_pages(&mut fabric);
    child.store_byte(&mut fabric, &mut NoCache, BASE, 0x33).unwrap();
    assert_eq!(parent.load_byte(&fabric, &mut NoCache, BASE).unwrap(), 0x22);
}

#[test]
fn unmapping_twice_changes_nothing_more() {
    let mut fabric = CpuFabric::new(Invalidated::default());
    let mut mmu = IoMMU::new(&mut fabric);
    mmu.map(&mut fabric, BASE, PAGE_SIZE_U64, false, false, RW).unwrap();
    mmu.unmap(&mut fabric, BASE, 2 * PAGE_SIZE_U64).unwrap();
    let ident = mmu.get_ident();
    let told = fabric.icache().pages.len();
    mmu.unmap(&mut fabric, BASE, 2 * PAGE_SIZE_U64).unwrap();
    assert_eq!(mmu.get_ident(), ident);
    assert_eq!(fabric.icache().pages.len(), told);
}

#[test]
fn a_load_gives_back_a_store_over_an_alias() {
    let mut fabric = CpuFabric::new(Invalidated::default());
    let mut mmu = IoMMU::new(&mut fabric);
    let lent = fabric.store.lend(vec![0; PAGE_SIZE]);
    let size = PAGE_SIZE_U64;
    for base in [BASE, BASE + size] {
        mmu.map_extern(&mut fabric, base, size, 0, lent, false, true, RW).unwrap();
    }
    // the end and the start of one host page
    let bytes = [1, 2, 3, 4, 5, 6];
    mmu.store(&mut fabric, &mut NoCache, BASE + size - 3, &bytes).unwrap();
    let mut loaded = [0; 6];
    mmu.load(&fabric, &mut NoCache, BASE + size - 3, &mut loaded).unwrap();
    assert_eq!(loaded, bytes);
    // seen at the other address, too
    mmu.load(&fabric, &mut NoCache, BASE, &mut loaded).unwrap();
    assert_eq!(loaded, [4, 5, 6, 0, 0, 0]);
}

#[test]
fn forced_accesses_ignore_permissions_but_not_mappings() {
    let mut fabric = CpuFabric::new(Invalidated::default());
    let mut mmu = IoMMU::new(&mut fabric);
    let mut tlb = Tlb::new();
    let none = MemProt { read: false, write: false, execute: false };
    mmu.map(&mut fabric, BASE, PAGE_SIZE_U64, false, false, none).unwrap();
    let mut bytes = [0; 3];
    assert!(mmu.load(&fabric, &mut tlb, BASE + 1, &mut bytes).is_err());
    assert!(mmu.store(&mut fabric, &mut tlb, BASE + 1, &[1, 2, 3]).is_err());
    mmu.store_force(&mut fabric, &mut tlb, BASE + 1, &[1, 2, 3]).unwrap();
    mmu.load_force(&fabric, &mut tlb, BASE + 1, &mut bytes).unwrap();
    assert_eq!(bytes, [1, 2, 3]);
    let read = mmu.load_into_uninit_force(&fabric, &mut tlb, BASE, 5).unwrap();
    assert_eq!(read, vec![0, 1, 2, 3, 0]);
    assert!(mmu.load_force(&fabric, &mut tlb, BASE + PAGE_SIZE_U64 - 1, &mut bytes).is_err());
}

#[test]
fn requests_of_either_kind_are_queued() {
    let (mmu, mut fabric, _) = object_machine(true, RW);
    let absent = mmu.fault_in_all_memory_objects(&fabric);
    let store = &fabric.store;
    let manager = &mut fabric.object_manager;
    assert_eq!(manager.enqueue_flush(store, absent[0], None), EnqueueStep::Unnecessary);
    assert_eq!(manager.enqueue_init(store, absent[0], Some(3)), EnqueueStep::Queued);
    assert_eq!(manager.enqueue_init(store, absent[0], Some(4)), EnqueueStep::Queued);
    manager.queue_limit = 1;
    assert_eq!(manager.enqueue_init(store, absent[1], None), EnqueueStep::Full);
    manager.close();
    assert_eq!(manager.enqueue_init(store, absent[1], None), EnqueueStep::Closed);
}

#[test]
fn a_stale_translation_is_never_used() {
    let mut fabric = CpuFabric::new(Invalidated::default());
    let mut mmu = IoMMU::new(&mut fabric);
    let mut tlb = Tlb::new();
    mmu.map(&mut fabric, BASE, PAGE_SIZE_U64, false, false, RW).unwrap();
    mmu.store_byte(&mut fabric, &mut tlb, BASE, 5).unwrap();
    assert_eq!(mmu.load_byte(&fabric, &mut tlb, BASE).unwrap(), 5);
    mmu.unmap(&mut fabric, BASE, PAGE_SIZE_U64).unwrap();
    assert!(mmu.load_byte(&fabric, &mut tlb, BASE).is_err());
    mmu.map(&mut fabric, BASE, PAGE_SIZE_U64, false, true, RW).unwrap();
    assert_eq!(mmu.load_byte(&fabric, &mut tlb, BASE).unwrap(), 0);
}

#[test]
fn random_pages_are_random_and_forget_writes() {
    let page_offset = PageNumber { number: 3 };
    let mut first = vec![0u8; PAGE_SIZE];
    let mut second = vec![0u8; PAGE_SIZE];
    OsRng.fault_in_exclusive(page_offset, &mut first).unwrap();
    OsRng.fault_in(page_offset, &mut second).unwrap();
    assert_ne!(first, second);
    assert!(first.iter().any(|byte| *byte != 0));
    OsRng.fault_out(page_offset, &first).unwrap();
}

/// An object whose pages hold one byte, and which has only four of them.
struct Constant(u8);

impl MemoryObject for Constant {
    fn fault_in_exclusive(&self, page_offset: PageNumber, page: &mut Vec<u8>) -> Result<(), anyhow::Error> {
        page.fill(self.0);
        if page_offset.number >= 4 {
            return Err(anyhow::Error::msg("out of range"));
        }
        Ok(())
    }

    fn fault_out_exclusive(&self, _: PageNumber, page: &Vec<u8>) -> Result<(), anyhow::Error> {
        match page.iter().all(|byte| *byte == self.0) {
            true => Ok(()),
            false => Err(anyhow::Error::msg("read only")),
        }
    }
}

#[test]
fn a_shared_page_goes_through_a_scratch_page() {
    let object = Constant(9);
    let mut shared = vec![1u8; PAGE_SIZE];
    assert!(object.fault_in(PageNumber { number: 4 }, &mut shared).is_err());
    assert_eq!(shared, vec![1u8; PAGE_SIZE]);
    assert!(object.fault_out(PageNumber { number: 0 }, &shared).is_err());
    object.fault_in(PageNumber { number: 3 }, &mut shared).unwrap();
    assert_eq!(shared, vec![9u8; PAGE_SIZE]);
    object.fault_out(PageNumber { number: 3 }, &shared).unwrap();
}

/// Moves a page between a file and memory, at most `at_once` bytes at a time.
fn run_transfer(
    direction: Direction,
    page_offset: PageNumber,
    file: &mut Vec<u8>,
    page: &mut [u8],
    at_once: usize,
) -> TransferStep {
    let mut transfer = Transfer::start(direction, page_offset);
    let mut interrupted = false;
    loop {
        interrupted = !interrupted;
        let at = transfer.offset as usize;
        let left = (PAGE_SIZE - transfer.done).min(at_once);
        let event = if interrupted {
            TransferEvent::Interrupted
        } else if direction == Direction::Out {
            if file.len() < at + left {
                file.resize(at + left, 0);
            }
            file[at..at + left].copy_from_slice(&page[transfer.done..transfer.done + left]);
            TransferEvent::Moved(left)
        } else {
            let count = left.min(file.len().saturating_sub(at));
            page[transfer.done..transfer.done + count].copy_from_slice(&file[at..at + count]);
            TransferEvent::Moved(count)
        };
        match transfer.step(event) {
            TransferStep::Again(next) => transfer = next,
            end => return end,
        }
    }
}

#[test]
fn a_page_comes_back_from_a_file() {
    let page_offset = PageNumber { number: 2 };
    let page: Vec<u8> = (0..PAGE_SIZE).map(|i| (i * 5 + 3) as u8).collect();
    for length in [0, 5_000, 9_000, 20_000] {
        let before = vec![0xee; length];
        let mut file = before.clone();
        let mut written = page.clone();
        let end = run_transfer(Direction::Out, page_offset, &mut file, &mut written, 1000);
        assert_eq!(end, TransferStep::Complete);
        assert_eq!(written, page);
        assert_eq!(file.len(), length.max(3 * PAGE_SIZE));
        assert_eq!(file[2 * PAGE_SIZE..3 * PAGE_SIZE], page[..]);
        for (i, byte) in before.iter().enumerate() {
            if !(2 * PAGE_SIZE..3 * PAGE_SIZE).contains(&i) {
                assert_eq!(file[i], *byte);
            }
        }
        let mut read = vec![0; PAGE_SIZE];
        let end = run_transfer(Direction::In, page_offset, &mut file, &mut read, 777);
        assert_eq!(end, TransferStep::Complete);
        assert_eq!(read, page);
    }
    // a page that the file ends in, and one behind its end
    let mut file = vec![7; 2 * PAGE_SIZE + 10];
    let mut read = vec![0; PAGE_SIZE];
    let end = run_transfer(Direction::In, page_offset, &mut file, &mut read, 4);
    assert_eq!(end, TransferStep::Complete);
    assert_eq!(read[..12], [7, 7, 7, 7, 7, 7, 7, 7, 7, 7, 0, 0]);
    let mut file = vec![7; 2 * PAGE_SIZE];
    let end = run_transfer(Direction::In, page_offset, &mut file, &mut read, 4);
    assert_eq!(end, TransferStep::Refused(TransferError::UnexpectedEof));
}

#[test]
fn a_translation_is_remembered() {
    let mut fabric = CpuFabric::new(Invalidated::default());
    let mut mmu = IoMMU::new(&mut fabric);
    let mut tlb = Tlb::new();
    mmu.map(&mut fabric, BASE, PAGE_SIZE_U64, false, false, RW).unwrap();
    let number = PageNumber { number: BASE / PAGE_SIZE_U64 };
    let page = mmu.get_page(&fabric, &mut tlb, number).unwrap();
    let entry = tlb.entries[20].unwrap();
    assert_eq!((entry.token, entry.number), (mmu.get_ident().token, 20));
    assert_eq!(entry.page, page);
    assert!(mmu.get_page(&fabric, &mut tlb, PageNumber { number: 21 }).is_err());
    assert_eq!(tlb.entries.iter().flatten().count(), 1);
}

#[test]
fn transfers_go_on_until_the_page_is_through() {
    let start = Transfer::start(Direction::In, PageNumber { number: 2 });
    assert_eq!((start.done, start.offset), (0, 8192));
    assert_eq!(start.step(TransferEvent::Interrupted), TransferStep::Again(start));
    let TransferStep::Again(next) = start.step(TransferEvent::Moved(100)) else {
        panic!("there is more to read");
    };
    assert_eq!((next.done, next.offset), (100, 8292));
    assert_eq!(next.step(TransferEvent::Moved(3996)), TransferStep::Complete);
    // the page is cut off by the end of the file
    assert_eq!(next.step(TransferEvent::Moved(0)), TransferStep::Complete);
    assert_eq!(
        start.step(TransferEvent::Moved(0)),
        TransferStep::Refused(TransferError::UnexpectedEof)
    );
    assert_eq!(
        start.step(TransferEvent::Failed),
        TransferStep::Refused(TransferError::Failed)
    );
    let start = Transfer::start(Direction::Out, PageNumber { number: 0 });
    assert_eq!(
        start.step(TransferEvent::Moved(0)),
        TransferStep::Refused(TransferError::WriteZero)
    );
}

#[test]
fn a_write_behind_an_open_epoch_stays_recorded() {
    assert_eq!(open_epoch(0), None);
    let open = open_epoch(set_dirty(0)).unwrap();
    assert_eq!(open, 2);
    let (closed, first) = close_epoch(set_dirty(open));
    assert_eq!((closed, first), (1, true));
    assert_eq!(close_epoch(closed), (1, false));
    assert_eq!(close_epoch(open_epoch(1).unwrap()), (0, true));
}

#[test]
fn locks_are_planned_in_ascending_order() {
    assert_eq!(access_plan(0, 8), (0, None));
    assert_eq!(access_plan(60, 8), (0, Some(1)));
    // the last shard and the first one
    assert_eq!(access_plan(126 * 64 + 60, 8), (0, Some(126)));
    assert_eq!(bulk_plan(64, 0), None);
    let none = ShardRange { start: 0, end: 0 };
    assert_eq!(bulk_plan(64, 128), Some((ShardRange { start: 1, end: 3 }, none)));
    assert_eq!(
        bulk_plan(126 * 64, 128),
        Some((ShardRange { start: 0, end: 1 }, ShardRange { start: 126, end: 127 }))
    );
    assert_eq!(bulk_plan(5, 127 * 64), Some((ShardRange { start: 0, end: 127 }, none)));
}

#[test]
fn the_last_fault_is_the_pending_one() {
    let mut slot = FFISafeMemoryFault::default();
    assert!(slot.take_memory_fault().is_none());
    slot.set_fault(MemOp::Load, MemoryFault::memory_bus(3, anyhow::Error::msg("bus")));
    slot.set_fault(MemOp::Store, MemoryFault::general_protection(4));
    let (fault, op) = slot.take_memory_fault().unwrap();
    assert_eq!((fault.vaddr(), op), (4, MemOp::Store));
    assert!(matches!(fault.into_reason(), MemoryFaultReason::GeneralProtection));
    assert!(slot.take_memory_fault().is_none());
    slot.set_fault(MemOp::Rwm, MemoryFault::memory_bus(5, anyhow::Error::msg("bus")));
    let (fault, op) = slot.take_memory_fault().unwrap();
    assert_eq!(op, MemOp::Rwm);
    match fault.into_reason() {
        MemoryFaultReason::MemoryBus(error) => assert_eq!(error.to_string(), "bus"),
        MemoryFaultReason::GeneralProtection => panic!("it was the bus"),
    }
    let mut context = ExecContext::initial();
    assert!(context.exclusive_monitor_reservation.is_none());
    assert!(context.current_mem_fault.take_memory_fault().is_none());
}

#[test]
fn llvm_has_a_predicate_for_every_comparison() {
    let pairs = [
        (IntCmp::Equal, LlvmPredicate::EQ),
        (IntCmp::NotEqual, LlvmPredicate::NE),
        (IntCmp::SignedLessThan, LlvmPredicate::SLT),
        (IntCmp::SignedLessThanOrEqual, LlvmPredicate::SLE),
        (IntCmp::SignedGreaterThan, LlvmPredicate::SGT),
        (IntCmp::SignedGreaterThanOrEqual, LlvmPredicate::SGE),
        (IntCmp::UnsignedLessThan, LlvmPredicate::ULT),
        (IntCmp::UnsignedLessThanOrEqual, LlvmPredicate::ULE),
        (IntCmp::UnsignedGreaterThan, LlvmPredicate::UGT),
        (IntCmp::UnsignedGreaterThanOrEqual, LlvmPredicate::UGE),
    ];
    for (predicate, expected) in pairs {
        assert_eq!(int_cmp_to_predicate(predicate), expected);
    }
    assert_eq!(ir_type_to_llvm(TypeFull::Bool), LlvmType::Int(1));
    assert_eq!(ir_type_to_llvm(TypeFull::Int(IntWidth::W16)), LlvmType::Int(16));
    assert_eq!(to_cstr(b"name\0"), b"name\0".to_vec());
    assert_eq!(to_cstr(b"a\0b"), b"a\0".to_vec());
    assert_eq!(to_cstr(b"name"), vec![0]);
    assert_eq!(to_cstr(b""), vec![0]);
}

#[test]
fn tiers_have_backends() {
    assert_eq!(CompileTier::Tier1.backend(), Backend::Cranelift { optimized: false });
    assert_eq!(CompileTier::Tier2.backend(), Backend::Cranelift { optimized: true });
    assert_eq!(CompileTier::GccJit.backend(), Backend::GccJit);
    assert_eq!(CompileTier::LLVM.backend(), Backend::Llvm);
}
