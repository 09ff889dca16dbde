//! The guest's registers: each has a place of its own, so that what is stored
//! to one is what a load of it gives, and what a load of another gives is
//! unchanged.
use vstd::prelude::*;
use crate::ir::builder::{emitted, ExecIrBuilder};
use crate::ir::emit::{load_state, store_state};
use crate::ir::layout::{x_reg_offset, PC_OFFSET, PSTATE_OFFSET, SP_OFFSET, X_REGISTERS_OFFSET};
use crate::ir::model::{lemma_wf, IrView};
use crate::ir::semantics::{lemma_run_emit, Machine, Val};
use crate::ir::types::{Arg, IntWidth, SSAValue, TypeFull};

verus! {

/// X register `i` is the `i`-th of eight bytes each in the register array. No
/// two X registers overlap, and none overlaps `SP`, `PC` or `PSTATE`, which do
/// not overlap each other either.
pub proof fn law_registers_apart(i: u8, j: u8, at_i: usize, at_j: usize)
    requires
        i < 31,
        j < 31,
        call_ensures(x_reg_offset, (i,), at_i),
        call_ensures(x_reg_offset, (j,), at_j),
    ensures
        at_i == X_REGISTERS_OFFSET + 8 * i,
        i != j ==> at_i + 8 <= at_j || at_j + 8 <= at_i,
        at_i + 8 <= SP_OFFSET || SP_OFFSET + 8 <= at_i,
        at_i + 8 <= PC_OFFSET || PC_OFFSET + 8 <= at_i,
        at_i + 8 <= PSTATE_OFFSET || PSTATE_OFFSET + 4 <= at_i,
        SP_OFFSET + 8 <= PC_OFFSET || PC_OFFSET + 8 <= SP_OFFSET,
        SP_OFFSET + 8 <= PSTATE_OFFSET || PSTATE_OFFSET + 4 <= SP_OFFSET,
        PC_OFFSET + 8 <= PSTATE_OFFSET || PSTATE_OFFSET + 4 <= PC_OFFSET,
{
}

/// The machine has every register.
pub open spec fn has_registers(m: Machine) -> bool {
    &&& forall|i: u8| i < 31 ==> #[trigger] m.state.contains_key((i * 8) as usize)
    &&& m.state.contains_key(SP_OFFSET)
    &&& m.state.contains_key(PC_OFFSET)
    &&& m.state.contains_key(PSTATE_OFFSET)
}

/// The low part of `x` that fits the width.
pub open spec fn low_part(x: u64, width: IntWidth) -> int {
    x as int % match width {
        IntWidth::W8 => 0x100int,
        IntWidth::W16 => 0x1_0000int,
        IntWidth::W32 => 0x1_0000_0000int,
        IntWidth::W64 => 0x1_0000_0000_0000_0000int,
    }
}

/// There is room for two more statements.
pub open spec fn has_place(builder: ExecIrBuilder) -> bool {
    builder@.types.len() + 4 <= u64::MAX && builder@.stmts.len() + 4 <= u64::MAX
}

proof fn lemma_loaded(v: IrView, w: IrView, offset: usize, width: IntWidth, r: SSAValue, m: Machine)
    requires
        v.wf(),
        v.types.len() + 2 <= u64::MAX,
        v.stmts.len() < u64::MAX,
        emitted(v, w, load_state(offset, width)),
        r == v.next(),
        m.state.contains_key(offset),
    ensures
        w.run_new(v, m) == Some(
            Machine {
                env: m.env.insert(r.index, Val::Int(low_part(m.state[offset], width) as u64)),
                ..m
            },
        ),
        w.types == v.types.push(TypeFull::Int(width)),
        r.index == v.types.len(),
{
    lemma_wf(v);
    assert(v.ty(Arg::ExecState.spec_value()) == Arg::ExecState.spec_ty());
    lemma_run_emit(v, v, load_state(offset, width), m);
    assert(v.types + v.output_types(load_state(offset, width)) =~= v.types.push(
        TypeFull::Int(width),
    ));
}

proof fn lemma_stored(v: IrView, w: IrView, offset: usize, value: SSAValue, m: Machine)
    requires
        v.wf(),
        v.types.len() + 2 <= u64::MAX,
        v.stmts.len() < u64::MAX,
        v.has(value),
        v.ty(value) is Int,
        emitted(v, w, store_state(offset, value)),
        m.has_int(value),
        m.state.contains_key(offset),
    ensures
        w.run_new(v, m) == Some(Machine { state: m.state.insert(offset, m.number(value)), ..m }),
        w.types == v.types,
{
    lemma_wf(v);
    assert(v.ty(Arg::ExecState.spec_value()) == Arg::ExecState.spec_ty());
    lemma_run_emit(v, v, store_state(offset, value), m);
    assert(v.types + Seq::<TypeFull>::empty() =~= v.types);
}

/// A load of an X register gives the low part of the number that stands in it.
pub proof fn law_load_x_reg(
    builder: &mut ExecIrBuilder,
    x_reg: u8,
    width: IntWidth,
    r: SSAValue,
    m: Machine,
)
    requires
        old(builder).wf(),
        has_place(*old(builder)),
        x_reg < 31,
        has_registers(m),
        call_ensures(ExecIrBuilder::load_x_reg_dyn, (builder, x_reg, width), r),
    ensures
        final(builder)@.types[r.index as int] == TypeFull::Int(width),
        final(builder)@.run_new(old(builder)@, m) == Some(
            Machine {
                env: m.env.insert(
                    r.index,
                    Val::Int(low_part(m.state[(x_reg * 8) as usize], width) as u64),
                ),
                ..m
            },
        ),
{
    assert(m.state.contains_key((x_reg * 8) as usize));
    lemma_loaded(old(builder)@, final(builder)@, (x_reg * 8) as usize, width, r, m);
}

/// As [`law_load_x_reg`], for a register that is fixed in the code.
pub proof fn law_load_fixed_x_reg<const REG_IDX: u8>(
    builder: &mut ExecIrBuilder,
    width: IntWidth,
    r: SSAValue,
    m: Machine,
)
    requires
        old(builder).wf(),
        has_place(*old(builder)),
        REG_IDX < 31,
        has_registers(m),
        call_ensures(ExecIrBuilder::load_x_reg::<REG_IDX>, (builder, width), r),
    ensures
        final(builder)@.types[r.index as int] == TypeFull::Int(width),
        final(builder)@.run_new(old(builder)@, m) == Some(
            Machine {
                env: m.env.insert(
                    r.index,
                    Val::Int(low_part(m.state[(REG_IDX * 8) as usize], width) as u64),
                ),
                ..m
            },
        ),
{
    assert(m.state.contains_key((REG_IDX * 8) as usize));
    lemma_loaded(old(builder)@, final(builder)@, (REG_IDX * 8) as usize, width, r, m);
}

/// A store to an X register puts the value into it, and into no other register.
pub proof fn law_store_x_reg(builder: &mut ExecIrBuilder, x_reg: u8, value: SSAValue, m: Machine)
    requires
        old(builder).wf(),
        has_place(*old(builder)),
        x_reg < 31,
        has_registers(m),
        old(builder)@.is_int(value, IntWidth::W64),
        m.has_int(value),
        call_ensures(ExecIrBuilder::store_x_reg_dyn, (builder, x_reg, value), ()),
    ensures
        final(builder)@.run_new(old(builder)@, m) == Some(
            Machine { state: m.state.insert((x_reg * 8) as usize, m.number(value)), ..m },
        ),
{
    assert(m.state.contains_key((x_reg * 8) as usize));
    lemma_stored(old(builder)@, final(builder)@, (x_reg * 8) as usize, value, m);
}

/// As [`law_store_x_reg`], for a register that is fixed in the code.
pub proof fn law_store_fixed_x_reg<const REG_IDX: u8>(
    builder: &mut ExecIrBuilder,
    value: SSAValue,
    m: Machine,
)
    requires
        old(builder).wf(),
        has_place(*old(builder)),
        REG_IDX < 31,
        has_registers(m),
        old(builder)@.is_int(value, IntWidth::W64),
        m.has_int(value),
        call_ensures(ExecIrBuilder::store_x_reg::<REG_IDX>, (builder, value), ()),
    ensures
        final(builder)@.run_new(old(builder)@, m) == Some(
            Machine { state: m.state.insert((REG_IDX * 8) as usize, m.number(value)), ..m },
        ),
{
    assert(m.state.contains_key((REG_IDX * 8) as usize));
    lemma_stored(old(builder)@, final(builder)@, (REG_IDX * 8) as usize, value, m);
}

/// A load of X register `j` after a store to X register `i` gives what was
/// stored if they are the same, and what stood in `j` before if they are not.
pub proof fn law_load_after_store_x_reg(
    storing: &mut ExecIrBuilder,
    i: u8,
    value: SSAValue,
    loading: &mut ExecIrBuilder,
    j: u8,
    width: IntWidth,
    r: SSAValue,
    m: Machine,
)
    requires
        old(storing).wf(),
        has_place(*old(storing)),
        i < 31,
        j < 31,
        has_registers(m),
        old(storing)@.is_int(value, IntWidth::W64),
        m.has_int(value),
        call_ensures(ExecIrBuilder::store_x_reg_dyn, (storing, i, value), ()),
        *old(loading) == *final(storing),
        call_ensures(ExecIrBuilder::load_x_reg_dyn, (loading, j, width), r),
    ensures
        ({
            &&& final(loading)@.run_new(old(storing)@, m) matches Some(end)
            &&& end.env[r.index] == Val::Int(
                if i == j {
                    low_part(m.number(value), width)
                } else {
                    low_part(m.state[(j * 8) as usize], width)
                } as u64,
            )
            &&& end.state[SP_OFFSET] == m.state[SP_OFFSET]
            &&& end.state[PC_OFFSET] == m.state[PC_OFFSET]
            &&& end.state[PSTATE_OFFSET] == m.state[PSTATE_OFFSET]
        }),
{
    let v = old(storing)@;
    let w = final(storing)@;
    let x = final(loading)@;
    let stored = store_state((i * 8) as usize, value);
    let loaded = load_state((j * 8) as usize, width);
    assert(m.state.contains_key((i * 8) as usize));
    assert(m.state.contains_key((j * 8) as usize));
    lemma_wf(v);
    assert(v.ty(Arg::ExecState.spec_value()) == Arg::ExecState.spec_ty());
    lemma_run_emit(v, v, stored, m);
    assert(v.types + Seq::<TypeFull>::empty() =~= v.types);
    let mid = Machine { state: m.state.insert((i * 8) as usize, m.number(value)), ..m };
    lemma_wf(w);
    lemma_run_emit(v, w, loaded, m);
}

/// The stack pointer, the program counter and the flags word: a load gives what
/// stands there, and a store puts its value there and nowhere else.
pub proof fn law_special_registers(
    builder: &mut ExecIrBuilder,
    value: SSAValue,
    r: SSAValue,
    m: Machine,
)
    requires
        old(builder).wf(),
        has_place(*old(builder)),
        has_registers(m),
    ensures
        call_ensures(ExecIrBuilder::load_sp, (builder,), r) ==> final(builder)@.run_new(
            old(builder)@,
            m,
        ) == Some(Machine { env: m.env.insert(r.index, Val::Int(m.state[SP_OFFSET])), ..m }),
        call_ensures(ExecIrBuilder::load_pc, (builder,), r) ==> final(builder)@.run_new(
            old(builder)@,
            m,
        ) == Some(Machine { env: m.env.insert(r.index, Val::Int(m.state[PC_OFFSET])), ..m }),
        call_ensures(ExecIrBuilder::load_pstate, (builder,), r) ==> final(builder)@.run_new(
            old(builder)@,
            m,
        ) == Some(
            Machine {
                env: m.env.insert(
                    r.index,
                    Val::Int((m.state[PSTATE_OFFSET] as int % 0x1_0000_0000) as u64),
                ),
                ..m
            },
        ),
        call_ensures(ExecIrBuilder::store_sp, (builder, value), ()) && old(builder)@.is_int(
            value,
            IntWidth::W64,
        ) && m.has_int(value) ==> final(builder)@.run_new(old(builder)@, m) == Some(
            Machine { state: m.state.insert(SP_OFFSET, m.number(value)), ..m },
        ),
        call_ensures(ExecIrBuilder::store_pc, (builder, value), ()) && old(builder)@.is_int(
            value,
            IntWidth::W64,
        ) && m.has_int(value) ==> final(builder)@.run_new(old(builder)@, m) == Some(
            Machine { state: m.state.insert(PC_OFFSET, m.number(value)), ..m },
        ),
        call_ensures(ExecIrBuilder::store_pstate, (builder, value), ()) && old(builder)@.is_int(
            value,
            IntWidth::W32,
        ) && m.has_int(value) ==> final(builder)@.run_new(old(builder)@, m) == Some(
            Machine { state: m.state.insert(PSTATE_OFFSET, m.number(value)), ..m },
        ),
{
    let v = old(builder)@;
    let w = final(builder)@;
    if call_ensures(ExecIrBuilder::load_sp, (builder,), r) {
        lemma_loaded(v, w, SP_OFFSET, IntWidth::W64, r, m);
    }
    if call_ensures(ExecIrBuilder::load_pc, (builder,), r) {
        lemma_loaded(v, w, PC_OFFSET, IntWidth::W64, r, m);
    }
    if call_ensures(ExecIrBuilder::load_pstate, (builder,), r) {
        lemma_loaded(v, w, PSTATE_OFFSET, IntWidth::W32, r, m);
    }
    if m.has_int(value) && v.is_int(value, IntWidth::W64) {
        if call_ensures(ExecIrBuilder::store_sp, (builder, value), ()) {
            lemma_stored(v, w, SP_OFFSET, value, m);
        }
        if call_ensures(ExecIrBuilder::store_pc, (builder, value), ()) {
            lemma_stored(v, w, PC_OFFSET, value, m);
        }
    }
    if m.has_int(value) && v.is_int(value, IntWidth::W32) && call_ensures(
        ExecIrBuilder::store_pstate,
        (builder, value),
        (),
    ) {
        lemma_stored(v, w, PSTATE_OFFSET, value, m);
    }
}

} // verus!
