//! What the code generator is told of the memory that an access touches, and which
//! backend compiles it.
use vstd::prelude::*;
use crate::compiler::{Backend, CompileTier};
use crate::ir::model::IrView;
use crate::ir::types::{AliasRegion, StmtKind, TypeFull};
use crate::lowering::{ClifMemFlags, ClifOp, LowerView};

verus! {

/// What an instruction tells of the memory that it touches.
pub open spec fn flags_of(op: ClifOp) -> Option<ClifMemFlags> {
    match op {
        ClifOp::Load { flags, .. } => Some(flags),
        ClifOp::Store { flags, .. } => Some(flags),
        ClifOp::AtomicLoad { flags, .. } => Some(flags),
        ClifOp::AtomicStore { flags, .. } => Some(flags),
        ClifOp::AtomicRmw { flags, .. } => Some(flags),
        _ => None,
    }
}

/// The region of host memory that a statement touches, and whether the access may
/// move.
pub open spec fn touches(ir: IrView, rvalue: StmtKind) -> Option<(AliasRegion, bool)> {
    match rvalue {
        StmtKind::LoadHost { base_ptr, can_move, .. } => match ir.types[base_ptr.index as int] {
            TypeFull::HostPtr(region) => Some((region, can_move)),
            _ => None,
        },
        StmtKind::StoreHost { base_ptr, can_move, .. } => match ir.types[base_ptr.index as int] {
            TypeFull::HostPtr(region) => Some((region, can_move)),
            _ => None,
        },
        StmtKind::LoadHaltReason => Some((AliasRegion::HaltReason, false)),
        StmtKind::TakeHaltReason => Some((AliasRegion::HaltReason, false)),
        StmtKind::SetPageDirtyFlag(_) => Some((AliasRegion::PageFlags, false)),
        _ => None,
    }
}

/// An access to host memory names the region of its pointer, is constant only in
/// memory that nothing writes, and moves only where it may. An access to guest
/// memory stays where it is and is little-endian.
pub proof fn law_memory_flags(ir: IrView, v: LowerView, rvalue: StmtKind)
    requires
        v.current < v.blocks.len(),
    ensures
        ({
            let insts = v.lower(ir, rvalue).0.blocks[v.current as int].insts;
            let told = flags_of(insts[insts.len() - 1].op);
            &&& touches(ir, rvalue) matches Some((region, may_move)) ==> insts.len() > 0 && (
            told matches Some(flags) && flags.region == region && flags.can_move == may_move && (
            flags.readonly <==> region is ReadOnly) && !flags.little_endian)
            &&& rvalue is VMLoadRaw || rvalue is VMStoreRaw ==> insts.len() > 0 && (
            told matches Some(flags) && flags.region is VirtualMemory && !flags.can_move
                && !flags.readonly && flags.little_endian)
        }),
{
}

/// Each tier has its backend, and only the first one compiles without optimizing.
pub proof fn law_backends(tier: CompileTier, r: Backend)
    requires
        call_ensures(CompileTier::backend, (tier,), r),
    ensures
        match r {
            Backend::Cranelift { optimized } => if optimized {
                tier is Tier2
            } else {
                tier is Tier1
            },
            Backend::GccJit => tier is GccJit,
            Backend::Llvm => tier is LLVM,
        },
{
}

} // verus!
