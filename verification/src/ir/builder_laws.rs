//! What a builder starts from, and what an emitted statement adds.
use vstd::prelude::*;
use crate::ir::builder::{ExecIrBuilder, IrBuilderConfig};
use crate::ir::model::{lemma_wf, IrView};
use crate::ir::types::{AliasRegion, Arg, Block, LoadType, SSAValue, StmtKind, TypeFull};

verus! {

/// A builder starts with one empty block that takes the six arguments, in the order
/// in which a compiled block is called, and with nothing else.
pub proof fn law_start(config: IrBuilderConfig, r: ExecIrBuilder)
    requires
        config.halt_check_every > 0,
        call_ensures(ExecIrBuilder::with_config, (config,), r),
    ensures
        r@.blocks.len() == 1,
        r@.current.index == 0,
        r@.blocks[0].stmts.len() == 0,
        r@.blocks[0].parameters == seq![
            Arg::IoMMU.spec_value().index,
            Arg::Tlb.spec_value().index,
            Arg::ExecContext.spec_value().index,
            Arg::ExecState.spec_value().index,
            Arg::IoMMUIdentifier.spec_value().index,
            Arg::HaltReasonPtr.spec_value().index,
        ],
        !r@.blocks[0].terminated && !r@.blocks[0].is_cold && r@.blocks[0].terminator is Return,
        r@.types.len() == 6,
        r@.types[Arg::IoMMU.spec_value().index as int] == TypeFull::HostPtr(AliasRegion::ReadOnly),
        r@.types[Arg::Tlb.spec_value().index as int] == TypeFull::HostPtr(AliasRegion::Tlb),
        r@.types[Arg::ExecContext.spec_value().index as int] == TypeFull::HostPtr(
            AliasRegion::ExecContext,
        ),
        r@.types[Arg::ExecState.spec_value().index as int] == TypeFull::HostPtr(
            AliasRegion::ExecState,
        ),
        r@.types[Arg::IoMMUIdentifier.spec_value().index as int] == TypeFull::HostPtr(
            AliasRegion::ReadOnly,
        ),
        r@.types[Arg::HaltReasonPtr.spec_value().index as int] == TypeFull::HostPtr(
            AliasRegion::HaltReason,
        ),
        r@.stmts.len() == 0 && r@.calls.len() == 0 && r@.slots.len() == 0,
        r@.scratch_space is None && r@.leave_and_take_halt is None,
        r@.halt_check_every == config.halt_check_every,
{
    lemma_wf(r@);
}

/// Switching to a block changes where statements go, and nothing else.
pub proof fn law_switch(builder: &mut ExecIrBuilder, block: Block)
    requires
        old(builder).wf(),
        old(builder)@.may_change(block),
        call_ensures(ExecIrBuilder::switch_to, (builder, block), ()),
    ensures
        final(builder)@.current == block,
        final(builder)@.blocks == old(builder)@.blocks,
        final(builder)@.stmts == old(builder)@.stmts,
        final(builder)@.types == old(builder)@.types,
        final(builder)@.calls == old(builder)@.calls,
        final(builder)@.slots == old(builder)@.slots,
        final(builder)@.scratch_space == old(builder)@.scratch_space,
        final(builder)@.leave_and_take_halt == old(builder)@.leave_and_take_halt,
        final(builder)@.halt_check_every == old(builder)@.halt_check_every,
{
}

/// One statement stands at the end of the current block, everything that was there
/// is as it was, and `added` new values have come.
pub open spec fn one_more(v: IrView, w: IrView, rvalue: StmtKind, added: int) -> bool {
    let at = v.current.index as int;
    let stmts = w.blocks[at].stmts;
    let newest = w.stmts[stmts[stmts.len() - 1].index as int];
    &&& w.current == v.current
    &&& w.blocks.len() == v.blocks.len()
    &&& forall|b: int| 0 <= b < v.blocks.len() && b != at ==> #[trigger] w.blocks[b] == v.blocks[b]
    &&& w.blocks[at].parameters == v.blocks[at].parameters
    &&& w.blocks[at].terminator == v.blocks[at].terminator
    &&& w.blocks[at].terminated == v.blocks[at].terminated
    &&& w.blocks[at].is_cold == v.blocks[at].is_cold
    &&& stmts.len() == v.blocks[at].stmts.len() + 1
    &&& forall|i: int|
        0 <= i < v.blocks[at].stmts.len() ==> #[trigger] stmts[i] == v.blocks[at].stmts[i]
    &&& w.stmts.len() == v.stmts.len() + 1
    &&& forall|i: int| 0 <= i < v.stmts.len() ==> #[trigger] w.stmts[i] == v.stmts[i]
    &&& stmts[stmts.len() - 1].index == v.stmts.len()
    &&& newest.rvalue == rvalue
    &&& newest.outputs.len() == added
    &&& forall|i: int| 0 <= i < added ==> #[trigger] newest.outputs[i] == v.types.len() + i
    &&& w.types.len() == v.types.len() + added
    &&& forall|i: int| 0 <= i < v.types.len() ==> #[trigger] w.types[i] == v.types[i]
    &&& w.slots == v.slots
    &&& w.calls == v.calls
}

/// An emitted statement is the last one of the current block and binds values that
/// nothing bound before.
pub proof fn law_emit(builder: &mut ExecIrBuilder, rvalue: StmtKind, r: SSAValue)
    requires
        old(builder).wf(),
        old(builder)@.typed(rvalue),
        old(builder)@.output_types(rvalue).len() == 1,
        call_ensures(ExecIrBuilder::emit_1ret_stmt, (builder, rvalue), r),
    ensures
        one_more(old(builder)@, final(builder)@, rvalue, 1),
        r.index == old(builder)@.types.len(),
{
    let v = old(builder)@;
    lemma_wf(v);
    lemma_wf(final(builder)@);
    reveal(IrView::emit);
    assert(final(builder)@ == v.emit(rvalue));
}

pub proof fn law_emit_two(builder: &mut ExecIrBuilder, rvalue: StmtKind, r: (SSAValue, SSAValue))
    requires
        old(builder).wf(),
        old(builder)@.typed(rvalue),
        old(builder)@.output_types(rvalue).len() == 2,
        call_ensures(ExecIrBuilder::emit_2ret_stmt, (builder, rvalue), r),
    ensures
        one_more(old(builder)@, final(builder)@, rvalue, 2),
        r.0.index == old(builder)@.types.len(),
        r.1.index == old(builder)@.types.len() + 1,
{
    let v = old(builder)@;
    lemma_wf(v);
    lemma_wf(final(builder)@);
    reveal(IrView::emit);
    assert(final(builder)@ == v.emit(rvalue));
}

pub proof fn law_emit_none(builder: &mut ExecIrBuilder, rvalue: StmtKind)
    requires
        old(builder).wf(),
        old(builder)@.typed(rvalue),
        old(builder)@.output_types(rvalue).len() == 0,
        call_ensures(ExecIrBuilder::emit_void_stmt, (builder, rvalue), ()),
    ensures
        one_more(old(builder)@, final(builder)@, rvalue, 0),
{
    let v = old(builder)@;
    lemma_wf(v);
    lemma_wf(final(builder)@);
    reveal(IrView::emit);
    assert(final(builder)@ == v.emit(rvalue));
}

/// What a statement computes has the type of its operands, a comparison gives a
/// truth, a load what it was asked for, and a store nothing.
pub proof fn law_output_types(builder: ExecIrBuilder, rvalue: StmtKind, r: Vec<TypeFull>)
    requires
        builder@.typed(rvalue),
        call_ensures(ExecIrBuilder::type_of, (&builder, &rvalue), r),
    ensures
        match rvalue {
            StmtKind::ArithBinOp { lhs, rhs, .. } => r@ == seq![builder@.ty(lhs)] && builder@.ty(rhs)
                == builder@.ty(lhs),
            StmtKind::Bitwise { lhs, rhs, .. } => r@ == seq![builder@.ty(lhs)] && builder@.ty(rhs)
                == builder@.ty(lhs),
            StmtKind::IntNeg(value) => r@ == seq![builder@.ty(value)],
            StmtKind::BitNot(value) => r@ == seq![builder@.ty(value)],
            StmtKind::Shift { value, .. } => r@ == seq![builder@.ty(value)],
            StmtKind::ShiftUnbounded { value, .. } => r@ == seq![builder@.ty(value)],
            StmtKind::ShiftImm { value, .. } => r@ == seq![builder@.ty(value)],
            StmtKind::Select { if_true, if_false, .. } => r@ == seq![builder@.ty(if_true)]
                && builder@.ty(if_false) == builder@.ty(if_true),
            StmtKind::OverflowingBinOp { lhs, rhs, .. } => r@ == seq![
                builder@.ty(lhs),
                TypeFull::Bool,
            ] && builder@.ty(rhs) == builder@.ty(lhs),
            StmtKind::IntCmp { lhs, rhs, .. } => r@ == seq![TypeFull::Bool] && builder@.ty(rhs)
                == builder@.ty(lhs),
            StmtKind::IntCmpImm { .. } => r@ == seq![TypeFull::Bool],
            StmtKind::PtrEq(_, _) => r@ == seq![TypeFull::Bool],
            StmtKind::HasTag { .. } => r@ == seq![TypeFull::Bool],
            StmtKind::LoadHost { ty: LoadType::Int(width), .. } => r@ == seq![TypeFull::Int(width)],
            StmtKind::LoadHost { ty: LoadType::HostPtr(region), .. } => r@ == seq![
                TypeFull::HostPtr(region),
            ],
            StmtKind::VMLoadRaw { width, .. } => r@ == seq![TypeFull::Int(width)],
            StmtKind::StoreHost { .. } => r@.len() == 0,
            StmtKind::VMStoreRaw { .. } => r@.len() == 0,
            StmtKind::SetPageDirtyFlag(_) => r@.len() == 0,
            StmtKind::Safepoint => r@.len() == 0,
            _ => r@.len() <= 1,
        },
{
}

} // verus!
