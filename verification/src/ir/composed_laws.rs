//! What calls of the larger emitters come to when the code that they append
//! runs.
use vstd::prelude::*;
use crate::ir::access_agreement::{
    holds, host_loads, host_stores, law_vm_load_agrees, law_vm_store_agrees, placed_apart, reports,
    tlb_right, Places,
};
use crate::ir::access_laws::{
    called, can_load, can_store, delivers, entering, entry_of, here, host_numbers, inputs, kept,
    knows, law_ldrex, law_strex, open_at, scratch_of, trapped,
};
use crate::ir::builder::ExecIrBuilder;
use crate::ir::emit_laws::{as_signed, known_bool, known_int, numbers};
use crate::ir::execution::{Flow, Host, HostMem};
use crate::ir::ir_laws::{
    has_room, law_flag_setting, law_next_insn, law_sdiv, law_set_nzcv, law_udiv,
};
use crate::ir::layout::{PC_OFFSET, PSTATE_OFFSET};
use crate::ir::model::IrView;
use crate::ir::semantics::{Machine, Val};
use crate::ir::types::{
    Arg, CallbackSignature, HostCallback, IntWidth, OverflowingBinOp, SSAValue, StackSlot,
    StmtKind,
};
use crate::callback_laws::{left_behind, lemma_left_behind, lemma_number, number_at};
use crate::exec_context::MemOp;
use crate::guest_laws::{faults_at, lemma_faults};
use crate::inline_list::InlineList;
use crate::memops::{lemma_pow256_values, to_le};
use crate::page_store::StoreView;
use crate::page_table::{table_wf, PageEntry};
use crate::scalar::store_scalar;

verus! {

/// The flags word with its four condition flags as given and every other bit as
/// it was.
pub open spec fn flags_word(word: int, n: bool, z: bool, c: bool, v: bool) -> int {
    word % 0x1000_0000 + (if n {
        0x8000_0000int
    } else {
        0
    }) + (if z {
        0x4000_0000int
    } else {
        0
    }) + (if c {
        0x2000_0000int
    } else {
        0
    }) + (if v {
        0x1000_0000int
    } else {
        0
    })
}

/// Division: the code leaves the quotient of the numbers, and zero for a
/// divisor of zero. The signed one rounds toward zero, and gives the dividend
/// where the quotient does not fit.
pub proof fn law_division(
    builder: &mut ExecIrBuilder,
    lhs: SSAValue,
    rhs: SSAValue,
    width: IntWidth,
    r: SSAValue,
    m: Machine,
)
    requires
        has_room(old(builder)@),
        known_int(*old(builder), m, lhs, width),
        known_int(*old(builder), m, rhs, width),
    ensures
        call_ensures(ExecIrBuilder::udiv, (builder, lhs, rhs), r) ==> ({
            let a = m.env[lhs.index]->Int_0 as int;
            let b = m.env[rhs.index]->Int_0 as int;
            &&& final(builder)@.run_new(old(builder)@, m) matches Some(end)
            &&& end.state == m.state
            &&& end.env[r.index] == Val::Int(
                if b == 0 {
                    0
                } else {
                    (a / b) as u64
                },
            )
        }),
        call_ensures(ExecIrBuilder::sdiv, (builder, lhs, rhs), r) ==> ({
            let a = as_signed(width, m.env[lhs.index]->Int_0);
            let b = as_signed(width, m.env[rhs.index]->Int_0);
            &&& final(builder)@.run_new(old(builder)@, m) matches Some(end)
            &&& end.state == m.state
            &&& end.env[r.index] matches Val::Int(q)
            &&& b == 0 ==> q == 0
            &&& b != 0 && a >= 0 && b > 0 ==> q == (a / b) % numbers(width)
            &&& b != 0 && a < 0 && b > 0 ==> q == (-((-a) / b)) % numbers(width)
            &&& b != 0 && a >= 0 && b < 0 ==> q == (-(a / (-b))) % numbers(width)
            &&& b != 0 && a < 0 && b < 0 && !(2 * a == -numbers(width) && b == -1) ==> q == ((-a)
                / (-b)) % numbers(width)
            &&& 2 * a == -numbers(width) && b == -1 ==> as_signed(width, q) == a
        }),
{
    let v = old(builder)@;
    assert(width.modulus() == numbers(width));
    if call_ensures(ExecIrBuilder::udiv, (builder, lhs, rhs), r) {
        law_udiv(v, lhs, rhs, m);
    }
    if call_ensures(ExecIrBuilder::sdiv, (builder, lhs, rhs), r) {
        law_sdiv(v, lhs, rhs, m);
        assert(width.signed(m.number(lhs)) == as_signed(width, m.number(lhs)));
        assert(width.signed(m.number(rhs)) == as_signed(width, m.number(rhs)));
    }
}

/// An operation that sets the condition flags: the wrapped result, negative and
/// zero after it, carry after the unsigned numbers, and overflow after the
/// signed ones. Nothing else of the guest CPU's state changes.
pub open spec fn sets_flags(
    before: ExecIrBuilder,
    after: ExecIrBuilder,
    width: IntWidth,
    m: Machine,
    r: SSAValue,
    result: int,
    carry: bool,
    exact: int,
) -> bool {
    let wrapped = result % numbers(width);
    &&& after@.run_new(before@, m) matches Some(end)
    &&& end.env[r.index] == Val::Int(wrapped as u64)
    &&& end.state == m.state.insert(
        PSTATE_OFFSET,
        flags_word(
            m.state[PSTATE_OFFSET] as int,
            2 * wrapped >= numbers(width),
            wrapped == 0,
            carry,
            2 * exact < -numbers(width) || 2 * exact >= numbers(width),
        ) as u64,
    )
}

/// Additions and subtractions that set the condition flags.
pub proof fn law_flag_setters(
    builder: &mut ExecIrBuilder,
    lhs: SSAValue,
    rhs: SSAValue,
    width: IntWidth,
    r: SSAValue,
    m: Machine,
)
    requires
        old(builder).wf(),
        has_room(old(builder)@),
        known_int(*old(builder), m, lhs, width),
        known_int(*old(builder), m, rhs, width),
        m.state.contains_key(PSTATE_OFFSET),
        m.state[PSTATE_OFFSET] <= u32::MAX,
    ensures
        call_ensures(ExecIrBuilder::iadds, (builder, lhs, rhs), r) ==> sets_flags(
            *old(builder),
            *final(builder),
            width,
            m,
            r,
            m.env[lhs.index]->Int_0 + m.env[rhs.index]->Int_0,
            m.env[lhs.index]->Int_0 + m.env[rhs.index]->Int_0 >= numbers(width),
            as_signed(width, m.env[lhs.index]->Int_0) + as_signed(
                width,
                m.env[rhs.index]->Int_0,
            ),
        ),
        call_ensures(ExecIrBuilder::isubs, (builder, lhs, rhs), r) ==> sets_flags(
            *old(builder),
            *final(builder),
            width,
            m,
            r,
            m.env[lhs.index]->Int_0 - m.env[rhs.index]->Int_0,
            m.env[lhs.index]->Int_0 >= m.env[rhs.index]->Int_0,
            as_signed(width, m.env[lhs.index]->Int_0) - as_signed(
                width,
                m.env[rhs.index]->Int_0,
            ),
        ),
{
    let v = old(builder)@;
    assert(width.modulus() == numbers(width));
    assert(2 * width.sign_bit() == numbers(width));
    assert(width.signed(m.number(lhs)) == as_signed(width, m.number(lhs)));
    assert(width.signed(m.number(rhs)) == as_signed(width, m.number(rhs)));
    law_flag_setting(v, OverflowingBinOp::Add, lhs, rhs, m);
    law_flag_setting(v, OverflowingBinOp::Sub, lhs, rhs, m);
}

/// Setting the condition flags sets each of them to its truth value and leaves
/// every other bit of the flags word, and all other state, as it was.
pub proof fn law_condition_flags(
    builder: &mut ExecIrBuilder,
    n: SSAValue,
    z: SSAValue,
    c: SSAValue,
    o: SSAValue,
    m: Machine,
)
    requires
        old(builder).wf(),
        has_room(old(builder)@),
        known_bool(*old(builder), m, n),
        known_bool(*old(builder), m, z),
        known_bool(*old(builder), m, c),
        known_bool(*old(builder), m, o),
        m.state.contains_key(PSTATE_OFFSET),
        m.state[PSTATE_OFFSET] <= u32::MAX,
        call_ensures(ExecIrBuilder::set_nzcv_flags, (builder, n, z, c, o), ()),
    ensures
        final(builder)@.run_new(old(builder)@, m) matches Some(end) && end.state == m.state.insert(
            PSTATE_OFFSET,
            flags_word(
                m.state[PSTATE_OFFSET] as int,
                m.env[n.index]->Bool_0,
                m.env[z.index]->Bool_0,
                m.env[c.index]->Bool_0,
                m.env[o.index]->Bool_0,
            ) as u64,
        ),
{
    law_set_nzcv(old(builder)@, n, z, c, o, m);
}

/// Moving on to the next instruction adds four to the program counter, and ends
/// with a safepoint.
pub proof fn law_next_instruction(builder: &mut ExecIrBuilder, m: Machine)
    requires
        old(builder).wf(),
        has_room(old(builder)@),
        m.state.contains_key(PC_OFFSET),
        call_ensures(ExecIrBuilder::next_insn, (builder,), ()),
    ensures
        final(builder)@.run_new(old(builder)@, m) matches Some(end) && end.state == m.state.insert(
            PC_OFFSET,
            ((m.state[PC_OFFSET] + 4) % 0x1_0000_0000_0000_0000) as u64,
        ),
        final(builder)@.stmts.last().rvalue == StmtKind::Safepoint,
{
    law_next_insn(old(builder)@, m);
    reveal(IrView::emit);
}

/// A stack slot has the size and the alignment asked for, and is none that was
/// there before.
pub proof fn law_stack_slot(builder: &mut ExecIrBuilder, size: u32, align: u8, r: StackSlot)
    requires
        call_ensures(ExecIrBuilder::create_stack_slot, (builder, size, align), r),
    ensures
        r.index == old(builder)@.slots.len(),
        final(builder)@.slots.len() == old(builder)@.slots.len() + 1,
        final(builder)@.slots[r.index as int].size == size,
        final(builder)@.slots[r.index as int].align == align,
        forall|i: int|
            0 <= i < old(builder)@.slots.len() ==> #[trigger] final(builder)@.slots[i] == old(
                builder,
            )@.slots[i],
{
}

/// A call of the host is one statement of the current block, names the function
/// and passes the arguments it was given, in order.
pub proof fn law_host_call(
    builder: &mut ExecIrBuilder,
    func: HostCallback,
    signature: CallbackSignature,
    args: InlineList,
    r: Option<SSAValue>,
)
    requires
        old(builder)@.calls.len() < u64::MAX,
        old(builder)@.has_block(old(builder)@.current),
        old(builder)@.stmts.len() < u64::MAX,
        old(builder)@.types.len() < u64::MAX,
        call_ensures(ExecIrBuilder::call_host, (builder, func, signature, args), r),
    ensures
        final(builder)@.stmts.len() == old(builder)@.stmts.len() + 1,
        final(builder)@.blocks[old(builder)@.current.index as int].stmts.last().index == old(
            builder,
        )@.stmts.len(),
        ({
            let stmt = final(builder)@.stmts.last();
            &&& stmt.rvalue matches StmtKind::HostCallback { func: called, signature: as_is, args: at }
            &&& called == func
            &&& as_is == signature
            &&& final(builder)@.calls[at.index as int] == args@
            &&& r matches Some(value) ==> stmt.outputs == seq![value.index]
            &&& r is None <==> signature is ClearExclusive
        }),
{
    reveal(IrView::emit);
    let v = old(builder)@;
    let stmt = final(builder)@.stmts.last();
    if r is Some {
        assert(stmt.outputs =~= seq![(r->0).index]);
    }
}

/// The TLB entry that compiled code looks into is the one of the page's number
/// modulo the number of entries, each 32 bytes long, and it counts only for the
/// address space and the page that it was made for.
pub proof fn law_probe(tlb: u64, a: u64, mem: HostMem, ident: u64)
    ensures
        entry_of(tlb, a) == tlb + ((a as int / 4096) % 256) * 32,
        a < 0x8000_0000_0000_0000 ==> (knows(mem, entry_of(tlb, a), ident, a)
            <==> mem.cells[entry_of(tlb, a)] == ident && mem.cells[entry_of(tlb, a) + 8] == a as int
            / 4096),
{
    vstd::arithmetic::power2::lemma2_to64();
    let x = crate::ir::access_laws::probed(a);
    assert(x & 255 == x % 256) by (bit_vector);
    let s = IntWidth::W64.signed(a);
    let q = s / 4096;
    assert(IntWidth::W64.modulus() == 0x1_0000_0000_0000_0000);
    assert(IntWidth::W64.sign_bit() == 0x8000_0000_0000_0000);
    assert(x == IntWidth::W64.wrap(q));
    if a >= 0x8000_0000_0000_0000 {
        assert(q == a as int / 4096 - 0x10_0000_0000_0000);
        assert(q % 0x1_0000_0000_0000_0000 == q + 0x1_0000_0000_0000_0000);
    } else {
        assert(q % 0x1_0000_0000_0000_0000 == q);
    }
}

/// A memory trap tells how many bytes the access had.
pub proof fn law_trap_code(width: IntWidth, m: Machine, mem: HostMem)
    ensures
        trapped(width, m, mem) == (Flow::Returned {
            code: match width {
                IntWidth::W8 => 0x101,
                IntWidth::W16 => 0x102,
                IntWidth::W32 => 0x104,
                IntWidth::W64 => 0x108,
            },
            m,
            mem,
        }),
{
}

/// The bytes of a width.
pub open spec fn byte_count(width: IntWidth) -> int {
    match width {
        IntWidth::W8 => 1,
        IntWidth::W16 => 2,
        IntWidth::W32 => 4,
        IntWidth::W64 => 8,
    }
}

/// A compiled load goes on with the number that the guest sees at the address,
/// and leaves with a memory trap, and a fault at the address, where a load of
/// it faults. Guest memory stays as it was. This takes a TLB that is right about
/// the page, if it knows it, and a host that loads as the MMU does.
pub proof fn law_compiled_load(
    builder: &mut ExecIrBuilder,
    vaddr: SSAValue,
    width: IntWidth,
    r: SSAValue,
    host: Host,
    m: Machine,
    mem: HostMem,
    st: StoreView,
    space: nat,
    table: Map<u64, PageEntry>,
    at: Places,
)
    requires
        open_at(old(builder)@, 200),
        can_load(old(builder)@, host, m, mem, vaddr, width),
        st.wf(),
        table_wf(st, space, table),
        holds(mem, st, at),
        tlb_right(m, mem, vaddr, st, table, at),
        host_loads(
            host,
            width,
            host_numbers(m, vaddr, scratch_of(old(builder)@, mem)),
            mem,
            st,
            table,
            at,
        ),
        call_ensures(ExecIrBuilder::vm_load, (builder, vaddr, width), r),
    ensures
        ({
            let w = final(builder)@;
            let start = here(old(builder)@, m, mem);
            let a = m.number(vaddr);
            exists|end: Machine, after: HostMem|
                #![trigger entering(w.current, end, after)]
                {
                    &&& holds(after, st, at)
                    &&& kept(old(builder)@, m, end)
                    &&& if faults_at(st, table, a as int, byte_count(width), false) is None {
                        &&& w.comes_to(host, start, entering(w.current, end, after))
                        &&& end.env[r.index] == Val::Int(
                            number_at(st, table, a as int, byte_count(width)) as u64,
                        )
                    } else {
                        &&& w.comes_to(host, start, trapped(width, end, after))
                        &&& reports(
                            after,
                            m.number(Arg::ExecContext.spec_value()),
                            a,
                            MemOp::Load,
                        )
                    }
                }
        }),
{
    let v = old(builder)@;
    let a = m.number(vaddr);
    let (end, after) = law_vm_load_agrees(
        v,
        vaddr,
        width,
        false,
        host,
        m,
        mem,
        st,
        space,
        table,
        at,
    );
    lemma_faults(st, table, a, byte_count(width), false);
    if faults_at(st, table, a as int, byte_count(width), false) is None {
        lemma_number(st, table, a, byte_count(width));
    }
    assert(entering(final(builder)@.current, end, after) == entering(
        final(builder)@.current,
        end,
        after,
    ));
}

/// A compiled store goes on with its number in guest memory, and leaves with a
/// memory trap, and a fault at the address, where a store to it faults; guest
/// memory then stays as it was.
pub proof fn law_compiled_store(
    builder: &mut ExecIrBuilder,
    vaddr: SSAValue,
    value: SSAValue,
    width: IntWidth,
    host: Host,
    m: Machine,
    mem: HostMem,
    st: StoreView,
    space: nat,
    table: Map<u64, PageEntry>,
    at: Places,
)
    requires
        open_at(old(builder)@, 200),
        can_store(old(builder)@, m, mem, vaddr, value),
        known_int(*old(builder), m, value, width),
        st.wf(),
        table_wf(st, space, table),
        placed_apart(st, at),
        holds(mem, st, at),
        tlb_right(m, mem, vaddr, st, table, at),
        host_stores(
            host,
            width,
            host_numbers(m, vaddr, m.number(value)),
            mem,
            st,
            table,
            at,
        ),
        call_ensures(ExecIrBuilder::vm_store, (builder, vaddr, value), ()),
    ensures
        ({
            let w = final(builder)@;
            let start = here(old(builder)@, m, mem);
            let a = m.number(vaddr);
            exists|end: Machine, after: HostMem, now: StoreView|
                #![trigger entering(w.current, end, after), holds(after, now, at)]
                {
                    &&& holds(after, now, at)
                    &&& kept(old(builder)@, m, end)
                    &&& if faults_at(st, table, a as int, byte_count(width), true) is None {
                        &&& w.comes_to(host, start, entering(w.current, end, after))
                        &&& left_behind(
                            st,
                            now,
                            table,
                            a,
                            byte_count(width),
                            m.number(value) as int,
                        )
                    } else {
                        &&& w.comes_to(host, start, trapped(width, end, after))
                        &&& now == st
                        &&& reports(
                            after,
                            m.number(Arg::ExecContext.spec_value()),
                            a,
                            MemOp::Store,
                        )
                    }
                }
        }),
{
    let v = old(builder)@;
    let w = final(builder)@;
    let a = m.number(vaddr);
    let n = byte_count(width);
    let (end, after) = law_vm_store_agrees(
        v,
        vaddr,
        value,
        false,
        host,
        m,
        mem,
        st,
        space,
        table,
        at,
    );
    lemma_faults(st, table, a, n, true);
    let data = to_le(m.number(value) as nat, n as nat);
    let now = if faults_at(st, table, a as int, n, true) is None {
        store_scalar(st, table, a as int, data)
    } else {
        st
    };
    if faults_at(st, table, a as int, n, true) is None {
        lemma_pow256_values();
        lemma_left_behind(st, space, table, a, n, m.number(value));
    }
    assert(entering(w.current, end, after) == entering(w.current, end, after));
    assert(holds(after, now, at));
}

/// A compiled exclusive load asks the host for an exclusive load of its width
/// at its address, and goes on with what the host has left, or leaves with a
/// memory trap if the host has failed.
pub proof fn law_compiled_ldrex(
    builder: &mut ExecIrBuilder,
    vaddr: SSAValue,
    width: IntWidth,
    r: SSAValue,
    host: Host,
    m: Machine,
    mem: HostMem,
)
    requires
        open_at(old(builder)@, 200),
        inputs(old(builder)@, m, vaddr),
        mem.stack.contains_key((old(builder)@.with_scratch().scratch_space->0).index),
        delivers(
            host,
            width,
            true,
            host_numbers(m, vaddr, scratch_of(old(builder)@, mem)),
            scratch_of(old(builder)@, mem),
            mem,
        ),
        call_ensures(ExecIrBuilder::ldrex, (builder, vaddr, width), r),
    ensures
        ({
            let w = final(builder)@;
            let start = here(old(builder)@, m, mem);
            let scratch = scratch_of(old(builder)@, mem);
            let (mem2, status) = called(
                host,
                HostCallback::LoadExclusive(width),
                host_numbers(m, vaddr, scratch),
                mem,
            );
            exists|end: Machine| #[trigger]
                kept(old(builder)@, m, end) && if status == 0 {
                    &&& w.comes_to(host, start, here(w, end, mem2))
                    &&& end.env[r.index] == Val::Int(
                        (mem2.cells[scratch as int] as int % numbers(width)) as u64,
                    )
                } else {
                    w.comes_to(host, start, trapped(width, end, mem2))
                }
        }),
{
    let end = law_ldrex(old(builder)@, vaddr, width, host, m, mem);
    assert(width.modulus() == numbers(width));
    assert(kept(old(builder)@, m, end));
}

/// A compiled exclusive store asks the host for an exclusive store of its value
/// at its address, and goes on with the status, or leaves with a memory trap if
/// the access has faulted.
pub proof fn law_compiled_strex(
    builder: &mut ExecIrBuilder,
    vaddr: SSAValue,
    value: SSAValue,
    r: SSAValue,
    host: Host,
    m: Machine,
    mem: HostMem,
)
    requires
        open_at(old(builder)@, 200),
        inputs(old(builder)@, m, vaddr),
        m.has_int(value),
        call_ensures(ExecIrBuilder::strex, (builder, vaddr, value), r),
    ensures
        ({
            let w = final(builder)@;
            let start = here(old(builder)@, m, mem);
            let width = old(builder)@.width(value);
            let (mem2, status) = called(
                host,
                HostCallback::StoreExclusive(width),
                host_numbers(m, vaddr, m.number(value)),
                mem,
            );
            exists|end: Machine| #[trigger]
                kept(old(builder)@, m, end) && if status == 255 {
                    w.comes_to(host, start, trapped(width, end, mem2))
                } else {
                    &&& w.comes_to(host, start, here(w, end, mem2))
                    &&& end.env[r.index] == Val::Int(status)
                }
        }),
{
    let end = law_strex(old(builder)@, vaddr, value, host, m, mem);
    assert(kept(old(builder)@, m, end));
}

} // verus!
