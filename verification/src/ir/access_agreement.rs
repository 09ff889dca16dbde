//! Compiled accesses to guest memory agree with the MMU.
//!
//! A compiled access looks into the TLB first and asks the host only if that
//! does not help. As long as what the TLB says of a page is right, nobody can
//! tell: the access does what the MMU does, either way.
use vstd::prelude::*;
use crate::access::{bytes_at, lemma_resolved};
use crate::exec_context::MemOp;
use crate::ir::access_laws::{
    called, can_load, can_store, entering, entry_of, fault_recorded, here, host_numbers, inlined,
    kept, knows, law_vm_load, law_vm_store, lemma_stays_in_page, open_at, page_ptr, probed,
    scratch_of, stored_inline, tagged_ptr, trapped,
};
use crate::ir::execution::{Flow, Host, HostMem};
use crate::ir::layout::{
    spec_mem_op_code, FAULT_MEM_OP_OFFSET, FAULT_PENDING_OFFSET, FAULT_VADDR_OFFSET, TAG_ALL,
    TAG_MUST_DIRTY, TAG_READ, TAG_WRITE, TLB_PAGE_FLAGS_OFFSET, TLB_TAGGED_PTR_OFFSET,
};
use crate::ir::model::IrView;
use crate::ir::semantics::Machine;
use crate::ir::types::{Arg, HostCallback, IntWidth, SSAValue};
use crate::ir::vm_access::VmAccessKind;
use crate::memops::{le_value, lemma_le_value_bound, lemma_pow256_values, to_le, window};
use crate::memory::{offset_of, page_of, MemProt, MAX_PAGE_NUMBER};
use crate::page_store::StoreView;
use crate::page_table::{resolve, table_wf, PageEntry};
use crate::scalar::{scalar_fault, store_scalar};

verus! {

/// Where the host pages lie in memory, by their numbers.
pub type Places = spec_fn(int) -> u64;

/// No two host pages lie at the same place.
pub open spec fn placed_apart(st: StoreView, at: Places) -> bool {
    forall|g: int, h: int|
        #![trigger at(g), at(h)]
        0 <= g < st.host.len() && 0 <= h < st.host.len() && at(g) == at(h) ==> g == h
}

/// The memory holds the bytes of the host pages.
pub open spec fn holds(mem: HostMem, st: StoreView, at: Places) -> bool {
    forall|h: int|
        #![trigger at(h)]
        #![trigger st.host[h]]
        0 <= h < st.host.len() ==> mem.pages.contains_key(at(h)) && mem.pages[at(h)]
            == st.host[h].bytes
}

/// A fault of an access at `vaddr` is pending in the execution context.
pub open spec fn reports(mem: HostMem, context: u64, vaddr: u64, op: MemOp) -> bool {
    &&& mem.cells.contains_key(context + FAULT_VADDR_OFFSET)
    &&& mem.cells[context + FAULT_VADDR_OFFSET] == vaddr
    &&& mem.cells.contains_key(context + FAULT_MEM_OP_OFFSET)
    &&& mem.cells[context + FAULT_MEM_OP_OFFSET] == spec_mem_op_code(op)
    &&& mem.cells.contains_key(context + FAULT_PENDING_OFFSET)
    &&& mem.cells[context + FAULT_PENDING_OFFSET] == 1
}

/// The TLB entry at `entry` is right about page `n`: it points to the bytes
/// of the page, and its tags are the permissions of the page.
pub open spec fn describes(
    mem: HostMem,
    entry: int,
    st: StoreView,
    table: Map<u64, PageEntry>,
    at: Places,
    n: int,
) -> bool {
    let tagged = mem.cells[entry + TLB_TAGGED_PTR_OFFSET];
    &&& resolve(st, table, n) matches Some(page)
    &&& (tagged & (TAG_READ as u64) != 0) == page.ptr.flags.read
    &&& (tagged & (TAG_WRITE as u64) != 0) == page.ptr.flags.write
    &&& (tagged & (TAG_MUST_DIRTY as u64) != 0) == page.ptr.flags.spec_must_dirty()
    &&& tagged & !(TAG_ALL as u64) == at(page.ptr.page.index as int)
}

/// If the TLB knows the page of an access, it is right about it.
pub open spec fn tlb_right(
    m: Machine,
    mem: HostMem,
    vaddr: SSAValue,
    st: StoreView,
    table: Map<u64, PageEntry>,
    at: Places,
) -> bool {
    let a = m.number(vaddr);
    let entry = entry_of(m.number(Arg::Tlb.spec_value()), a);
    knows(mem, entry, m.number(Arg::IoMMUIdentifier.spec_value()), a) ==> describes(
        mem,
        entry,
        st,
        table,
        at,
        probed(a) as int,
    )
}

/// The host loads as the MMU does: it leaves the value, or says that the
/// access faults and reports a fault at its address. Guest memory stays as it
/// was.
pub open spec fn host_loads(
    host: Host,
    width: IntWidth,
    numbers: Seq<u64>,
    mem: HostMem,
    st: StoreView,
    table: Map<u64, PageEntry>,
    at: Places,
) -> bool {
    let (mem2, status) = called(host, HostCallback::Load(width), numbers, mem);
    &&& holds(mem2, st, at)
    &&& match scalar_fault(st, table, numbers[3], width.spec_bytes(), MemProt::spec_read()) {
        Some(_) => status != 0 && reports(mem2, numbers[2], numbers[3], MemOp::Load),
        None => {
            &&& status == 0
            &&& mem2.cells.contains_key(numbers[4] as int)
            &&& mem2.cells[numbers[4] as int] == le_value(
                bytes_at(st, table, numbers[3] as int, width.spec_bytes() as nat),
            )
        },
    }
}

/// The host stores as the MMU does, or says that the access faults and
/// reports a fault at its address.
pub open spec fn host_stores(
    host: Host,
    width: IntWidth,
    numbers: Seq<u64>,
    mem: HostMem,
    st: StoreView,
    table: Map<u64, PageEntry>,
    at: Places,
) -> bool {
    let (mem2, status) = called(host, HostCallback::Store(width), numbers, mem);
    let data = to_le(numbers[4] as nat, width.spec_bytes() as nat);
    match scalar_fault(st, table, numbers[3], width.spec_bytes(), MemProt::spec_write()) {
        Some(_) => {
            &&& status != 0
            &&& reports(mem2, numbers[2], numbers[3], MemOp::Store)
            &&& holds(mem2, st, at)
        },
        None => {
            &&& status == 0
            &&& holds(mem2, store_scalar(st, table, numbers[3] as int, data), at)
        },
    }
}

/// A page number that compiled code looks for and that is one is that of the
/// address.
proof fn lemma_probed(a: u64)
    requires
        probed(a) <= MAX_PAGE_NUMBER,
    ensures
        probed(a) == page_of(a as int),
{
    vstd::arithmetic::power2::lemma2_to64();
    let s = IntWidth::W64.signed(a);
    let q = s / 4096;
    assert(IntWidth::W64.modulus() == 0x1_0000_0000_0000_0000);
    assert(IntWidth::W64.sign_bit() == 0x8000_0000_0000_0000);
    assert(probed(a) == IntWidth::W64.wrap(q));
    if a >= 0x8000_0000_0000_0000 {
        assert(-0x8_0000_0000_0000 <= q < 0);
        assert(q % 0x1_0000_0000_0000_0000 == q + 0x1_0000_0000_0000_0000);
    } else {
        assert(q % 0x1_0000_0000_0000_0000 == q);
    }
}

/// What an entry that is right says of an aligned access.
proof fn lemma_right(
    m: Machine,
    mem: HostMem,
    vaddr: SSAValue,
    width: IntWidth,
    st: StoreView,
    space: nat,
    table: Map<u64, PageEntry>,
    at: Places,
    prot: MemProt,
)
    requires
        st.wf(),
        table_wf(st, space, table),
        holds(mem, st, at),
        tlb_right(m, mem, vaddr, st, table, at),
        inlined(m, mem, vaddr, width),
        prot == MemProt::spec_read() || prot == MemProt::spec_write(),
    ensures
        ({
            let a = m.number(vaddr);
            let n = page_of(a as int);
            &&& resolve(st, table, n) matches Some(page)
            &&& page_ptr(m, mem, vaddr) == at(page.ptr.page.index as int)
            &&& page.ptr.page.index < st.host.len()
            &&& mem.pages.contains_key(page_ptr(m, mem, vaddr))
            &&& mem.pages[page_ptr(m, mem, vaddr)] == st.host[page.ptr.page.index as int].bytes
            &&& mem.pages[page_ptr(m, mem, vaddr)].len() == 4096
            &&& a as int % 4096 + width.spec_bytes() <= 4096
            &&& scalar_fault(st, table, a, width.spec_bytes(), prot) == (
            if page.ptr.flags.spec_contains_any(prot) {
                None::<u64>
            } else {
                Some(a)
            })
            &&& (tagged_ptr(m, mem, vaddr) & (TAG_READ as u64) != 0) == page.ptr.flags.read
            &&& (tagged_ptr(m, mem, vaddr) & (TAG_WRITE as u64) != 0) == page.ptr.flags.write
            &&& (tagged_ptr(m, mem, vaddr) & (TAG_MUST_DIRTY as u64) != 0)
                == page.ptr.flags.spec_must_dirty()
        }),
{
    let a = m.number(vaddr);
    assert(table.contains_key(probed(a)));
    lemma_probed(a);
    let n = page_of(a as int);
    lemma_resolved(st, space, table, n);
    lemma_stays_in_page(a, width);
}

/// A compiled load gives what the MMU gives, whether or not the TLB knows the
/// page: the bytes of guest memory at the address, or a memory trap if the
/// access faults, with a fault that reports the address of the access. Guest
/// memory stays as it was.
#[verifier::spinoff_prover]
#[verifier::rlimit(60)]
pub proof fn law_vm_load_agrees(
    v: IrView,
    vaddr: SSAValue,
    width: IntWidth,
    seq_cst: bool,
    host: Host,
    m: Machine,
    mem: HostMem,
    st: StoreView,
    space: nat,
    table: Map<u64, PageEntry>,
    at: Places,
) -> (r: (Machine, HostMem))
    requires
        open_at(v, 200),
        can_load(v, host, m, mem, vaddr, width),
        st.wf(),
        table_wf(st, space, table),
        holds(mem, st, at),
        tlb_right(m, mem, vaddr, st, table, at),
        host_loads(host, width, host_numbers(m, vaddr, scratch_of(v, mem)), mem, st, table, at),
    ensures
        kept(v, m, r.0),
        holds(r.1, st, at),
        ({
            let (w, loaded) = v.vm_access(vaddr, VmAccessKind::Load { width }, seq_cst);
            let a = m.number(vaddr);
            match scalar_fault(st, table, a, width.spec_bytes(), MemProt::spec_read()) {
                None => {
                    &&& w.comes_to(host, here(v, m, mem), entering(w.current, r.0, r.1))
                    &&& r.0.has_int(loaded->0)
                    &&& r.0.number(loaded->0) == le_value(
                        bytes_at(st, table, a as int, width.spec_bytes() as nat),
                    )
                },
                Some(_) => {
                    &&& w.comes_to(host, here(v, m, mem), trapped(width, r.0, r.1))
                    &&& reports(r.1, m.number(Arg::ExecContext.spec_value()), a, MemOp::Load)
                },
            }
        }),
{
    let end = law_vm_load(v, vaddr, width, seq_cst, host, m, mem);
    let a = m.number(vaddr);
    let bytes = bytes_at(st, table, a as int, width.spec_bytes() as nat);
    lemma_pow256_values();
    lemma_le_value_bound(bytes);
    assert(le_value(bytes) <= width.mask()) by {
        match width {
            IntWidth::W8 => {
                assert(bytes.len() == 1);
            },
            IntWidth::W16 => {
                assert(bytes.len() == 2);
            },
            IntWidth::W32 => {
                assert(bytes.len() == 4);
            },
            IntWidth::W64 => {
                assert(bytes.len() == 8);
            },
        }
    }
    if inlined(m, mem, vaddr, width) {
        lemma_right(m, mem, vaddr, width, st, space, table, at, MemProt::spec_read());
        if tagged_ptr(m, mem, vaddr) & (TAG_READ as u64) == 0 {
            (
                end,
                fault_recorded(
                    mem,
                    m.number(Arg::ExecContext.spec_value()),
                    a,
                    MemOp::Load,
                ),
            )
        } else {
            lemma_page_bytes(st, table, a, width);
            (end, mem)
        }
    } else {
        let numbers = host_numbers(m, vaddr, scratch_of(v, mem));
        let (mem2, status) = called(host, HostCallback::Load(width), numbers, mem);
        vstd::arithmetic::div_mod::lemma_small_mod(le_value(bytes), width.modulus() as nat);
        (end, mem2)
    }
}

/// The bytes of an access that stays in its page are bytes of that page.
proof fn lemma_page_bytes(st: StoreView, table: Map<u64, PageEntry>, a: u64, width: IntWidth)
    requires
        resolve(st, table, page_of(a as int)) is Some,
        st.host[(resolve(st, table, page_of(a as int))->0).ptr.page.index as int].bytes.len()
            == 4096,
        a as int % 4096 + width.spec_bytes() <= 4096,
    ensures
        bytes_at(st, table, a as int, width.spec_bytes() as nat) == window(
            st.host[(resolve(st, table, page_of(a as int))->0).ptr.page.index as int].bytes,
            a as int % 4096,
            width.spec_bytes(),
        ),
{
    let n = width.spec_bytes();
    let page = st.host[(resolve(st, table, page_of(a as int))->0).ptr.page.index as int].bytes;
    let x = a as int;
    assert forall|i: int| 0 <= i < n implies #[trigger] bytes_at(st, table, x, n as nat)[i]
        == window(page, x % 4096, n)[i] by {
        assert(page_of(x + i) == page_of(x) && offset_of(x + i) == x % 4096 + i);
    }
    assert(bytes_at(st, table, x, n as nat) =~= window(page, x % 4096, n));
}

/// A compiled store does what the MMU does, whether or not the TLB knows the
/// page: it goes on if the access does not fault, with guest memory as the
/// MMU would leave it, and leaves with a memory trap if it does, with a fault
/// that reports the address of the access. A store that compiled code makes
/// itself is noted if the MMU would record it.
#[verifier::spinoff_prover]
#[verifier::rlimit(60)]
pub proof fn law_vm_store_agrees(
    v: IrView,
    vaddr: SSAValue,
    value: SSAValue,
    seq_cst: bool,
    host: Host,
    m: Machine,
    mem: HostMem,
    st: StoreView,
    space: nat,
    table: Map<u64, PageEntry>,
    at: Places,
) -> (r: (Machine, HostMem))
    requires
        open_at(v, 200),
        can_store(v, m, mem, vaddr, value),
        st.wf(),
        table_wf(st, space, table),
        placed_apart(st, at),
        holds(mem, st, at),
        tlb_right(m, mem, vaddr, st, table, at),
        host_stores(
            host,
            v.width(value),
            host_numbers(m, vaddr, m.number(value)),
            mem,
            st,
            table,
            at,
        ),
    ensures
        kept(v, m, r.0),
        ({
            let (w, _) = v.vm_access(vaddr, VmAccessKind::Store { value }, seq_cst);
            let width = v.width(value);
            let a = m.number(vaddr);
            let data = to_le(m.number(value) as nat, width.spec_bytes() as nat);
            match scalar_fault(st, table, a, width.spec_bytes(), MemProt::spec_write()) {
                None => {
                    &&& w.comes_to(host, here(v, m, mem), entering(w.current, r.0, r.1))
                    &&& holds(r.1, store_scalar(st, table, a as int, data), at)
                    &&& inlined(m, mem, vaddr, width) ==> {
                        let page = resolve(st, table, page_of(a as int))->0;
                        let entry = entry_of(m.number(Arg::Tlb.spec_value()), a);
                        r.1.noted == (if page.ptr.flags.spec_must_dirty() {
                            mem.noted.insert(mem.cells[entry + TLB_PAGE_FLAGS_OFFSET])
                        } else {
                            mem.noted
                        })
                    }
                },
                Some(_) => {
                    &&& w.comes_to(host, here(v, m, mem), trapped(width, r.0, r.1))
                    &&& holds(r.1, st, at)
                    &&& reports(r.1, m.number(Arg::ExecContext.spec_value()), a, MemOp::Store)
                },
            }
        }),
{
    let end = law_vm_store(v, vaddr, value, seq_cst, host, m, mem);
    let width = v.width(value);
    let a = m.number(vaddr);
    let data = to_le(m.number(value) as nat, width.spec_bytes() as nat);
    if inlined(m, mem, vaddr, width) {
        lemma_right(m, mem, vaddr, width, st, space, table, at, MemProt::spec_write());
        if tagged_ptr(m, mem, vaddr) & (TAG_WRITE as u64) == 0 {
            (
                end,
                fault_recorded(
                    mem,
                    m.number(Arg::ExecContext.spec_value()),
                    a,
                    MemOp::Store,
                ),
            )
        } else {
            let page = resolve(st, table, page_of(a as int))->0;
            lemma_resolved(st, space, table, page_of(a as int));
            let h = page.ptr.page.index as int;
            assert(store_scalar(st, table, a as int, data) == st.write(
                h,
                offset_of(a as int),
                data,
            ).mark_dirty(page));
            let after = stored_inline(m, mem, vaddr, value, width);
            let stored = store_scalar(st, table, a as int, data);
            assert(stored.host == st.write(h, offset_of(a as int), data).host);
            assert forall|g: int|
                #![trigger at(g)]
                #![trigger stored.host[g]]
                0 <= g < stored.host.len() implies after.pages.contains_key(at(g))
                && after.pages[at(g)] == stored.host[g].bytes by {
                assert(mem.pages.contains_key(at(g)) && mem.pages[at(g)] == st.host[g].bytes);
                assert(at(g) == at(h) ==> g == h);
            }
            (end, after)
        }
    } else {
        let numbers = host_numbers(m, vaddr, m.number(value));
        let (mem2, status) = called(host, HostCallback::Store(width), numbers, mem);
        (end, mem2)
    }
}

/// Two loads give the same, or fault alike.
pub open spec fn loads_alike(
    w: IrView,
    host: Host,
    start_a: Flow,
    end_a: (Machine, HostMem),
    start_b: Flow,
    end_b: (Machine, HostMem),
    loaded: SSAValue,
    width: IntWidth,
    context: u64,
    vaddr: u64,
) -> bool {
    ||| {
        &&& w.comes_to(host, start_a, entering(w.current, end_a.0, end_a.1))
        &&& w.comes_to(host, start_b, entering(w.current, end_b.0, end_b.1))
        &&& end_a.0.has_int(loaded) && end_b.0.has_int(loaded)
        &&& end_a.0.number(loaded) == end_b.0.number(loaded)
    }
    ||| {
        &&& w.comes_to(host, start_a, trapped(width, end_a.0, end_a.1))
        &&& w.comes_to(host, start_b, trapped(width, end_b.0, end_b.1))
        &&& reports(end_a.1, context, vaddr, MemOp::Load)
        &&& reports(end_b.1, context, vaddr, MemOp::Load)
    }
}

/// The TLB path and the host path of a load cannot be told apart: two runs
/// from the same CPU state, page table and guest memory, with whatever their
/// TLBs know, load the same value, or leave with the same memory trap and the
/// same pending fault. Guest memory is the same afterwards.
pub proof fn law_vm_load_paths_alike(
    v: IrView,
    vaddr: SSAValue,
    width: IntWidth,
    seq_cst: bool,
    host: Host,
    m: Machine,
    mem_a: HostMem,
    mem_b: HostMem,
    st: StoreView,
    space: nat,
    table: Map<u64, PageEntry>,
    at: Places,
) -> (r: ((Machine, HostMem), (Machine, HostMem)))
    requires
        open_at(v, 200),
        can_load(v, host, m, mem_a, vaddr, width),
        can_load(v, host, m, mem_b, vaddr, width),
        st.wf(),
        table_wf(st, space, table),
        holds(mem_a, st, at),
        holds(mem_b, st, at),
        tlb_right(m, mem_a, vaddr, st, table, at),
        tlb_right(m, mem_b, vaddr, st, table, at),
        host_loads(host, width, host_numbers(m, vaddr, scratch_of(v, mem_a)), mem_a, st, table, at),
        host_loads(host, width, host_numbers(m, vaddr, scratch_of(v, mem_b)), mem_b, st, table, at),
    ensures
        kept(v, m, (r.0).0),
        kept(v, m, (r.1).0),
        holds((r.0).1, st, at),
        holds((r.1).1, st, at),
        ({
            let (w, loaded) = v.vm_access(vaddr, VmAccessKind::Load { width }, seq_cst);
            loads_alike(
                w,
                host,
                here(v, m, mem_a),
                r.0,
                here(v, m, mem_b),
                r.1,
                loaded->0,
                width,
                m.number(Arg::ExecContext.spec_value()),
                m.number(vaddr),
            )
        }),
{
    let a = law_vm_load_agrees(v, vaddr, width, seq_cst, host, m, mem_a, st, space, table, at);
    let b = law_vm_load_agrees(v, vaddr, width, seq_cst, host, m, mem_b, st, space, table, at);
    (a, b)
}

/// Two stores leave the same guest memory, or fault alike and leave it as it
/// was.
pub open spec fn stores_alike(
    w: IrView,
    host: Host,
    start_a: Flow,
    end_a: (Machine, HostMem),
    start_b: Flow,
    end_b: (Machine, HostMem),
    st: StoreView,
    stored: StoreView,
    at: Places,
    width: IntWidth,
    context: u64,
    vaddr: u64,
) -> bool {
    ||| {
        &&& w.comes_to(host, start_a, entering(w.current, end_a.0, end_a.1))
        &&& w.comes_to(host, start_b, entering(w.current, end_b.0, end_b.1))
        &&& holds(end_a.1, stored, at)
        &&& holds(end_b.1, stored, at)
    }
    ||| {
        &&& w.comes_to(host, start_a, trapped(width, end_a.0, end_a.1))
        &&& w.comes_to(host, start_b, trapped(width, end_b.0, end_b.1))
        &&& holds(end_a.1, st, at)
        &&& holds(end_b.1, st, at)
        &&& reports(end_a.1, context, vaddr, MemOp::Store)
        &&& reports(end_b.1, context, vaddr, MemOp::Store)
    }
}

/// The TLB path and the host path of a store cannot be told apart: two runs
/// from the same CPU state, page table and guest memory, with whatever their
/// TLBs know, leave the same guest bytes, or leave with the same memory trap
/// and the same pending fault.
pub proof fn law_vm_store_paths_alike(
    v: IrView,
    vaddr: SSAValue,
    value: SSAValue,
    seq_cst: bool,
    host: Host,
    m: Machine,
    mem_a: HostMem,
    mem_b: HostMem,
    st: StoreView,
    space: nat,
    table: Map<u64, PageEntry>,
    at: Places,
) -> (r: ((Machine, HostMem), (Machine, HostMem)))
    requires
        open_at(v, 200),
        can_store(v, m, mem_a, vaddr, value),
        can_store(v, m, mem_b, vaddr, value),
        st.wf(),
        table_wf(st, space, table),
        placed_apart(st, at),
        holds(mem_a, st, at),
        holds(mem_b, st, at),
        tlb_right(m, mem_a, vaddr, st, table, at),
        tlb_right(m, mem_b, vaddr, st, table, at),
        ({
            let numbers = host_numbers(m, vaddr, m.number(value));
            &&& host_stores(host, v.width(value), numbers, mem_a, st, table, at)
            &&& host_stores(host, v.width(value), numbers, mem_b, st, table, at)
        }),
    ensures
        kept(v, m, (r.0).0),
        kept(v, m, (r.1).0),
        ({
            let (w, _) = v.vm_access(vaddr, VmAccessKind::Store { value }, seq_cst);
            let width = v.width(value);
            let data = to_le(m.number(value) as nat, width.spec_bytes() as nat);
            stores_alike(
                w,
                host,
                here(v, m, mem_a),
                r.0,
                here(v, m, mem_b),
                r.1,
                st,
                store_scalar(st, table, m.number(vaddr) as int, data),
                at,
                width,
                m.number(Arg::ExecContext.spec_value()),
                m.number(vaddr),
            )
        }),
{
    let a = law_vm_store_agrees(v, vaddr, value, seq_cst, host, m, mem_a, st, space, table, at);
    let b = law_vm_store_agrees(v, vaddr, value, seq_cst, host, m, mem_b, st, space, table, at);
    (a, b)
}

} // verus!
