//! `ExecIr`: the SSA intermediate representation consumed by the JIT
//! backends.
//!
//! An [`ExecIr`] is a control-flow graph of [`Block`](types::Block)s holding
//! typed, single-assignment values ([`SSAValue`](types::SSAValue)). Build one
//! with [`ExecIrBuilder`](builder::ExecIrBuilder), which offers
//! instruction-level emitters (arithmetic, bitwise ops, guest register and
//! guest memory access, branches) plus the safepoint/halt-check machinery,
//! then finish with `build`.
use vstd::prelude::*;
use crate::ir::builder::ExecIrBuilder;
use crate::ir::model::IrView;
use crate::ir::order::handles;
use crate::ir::types::Block;

pub mod types;
pub mod layout;
pub mod model;
pub mod builder;
pub mod emit;
pub mod compose;
pub mod vm_access;
pub mod order;
pub mod order_laws;
pub mod halt_check_pass;
pub mod halt_laws;
pub mod halt_pass_laws;
pub mod semantics;
pub mod execution;
pub mod access_laws;
pub mod access_agreement;
pub mod ir_laws;
pub mod builder_laws;
pub mod control_laws;
pub mod register_laws;
pub mod emit_laws;
pub mod table_laws;
pub mod composed_laws;

verus! {

/// A finished, immutable IR function ready to hand to a compiler.
///
/// Produced by [`ExecIrBuilder::build`], which also runs the halt-check pass
/// and fixes the block compile order.
pub struct ExecIr {
    pub body: ExecIrBuilder,
    pub block_compile_order: Vec<Block>,
}

impl View for ExecIr {
    type V = IrView;

    open spec fn view(&self) -> IrView {
        self.body@
    }
}

impl ExecIr {
    /// The function is in order, and so is its compile order.
    pub open spec fn wf(self) -> bool {
        self@.wf() && self.block_compile_order@ == handles(self@.compile_order())
    }
}

impl ExecIrBuilder {
    /// Finishes the function: runs the halt-check pass, computes the block
    /// compile order, and returns the immutable [`ExecIr`].
    pub fn build(self) -> (r: ExecIr)
        requires
            self.wf(),
        ensures
            r.wf(),
            r@ == self@.with_halt_checks(),
            r@.polled_often(),
    {
        let mut body = self;
        body.insert_halt_checks();
        let block_compile_order: Vec<Block> = body.topo_sort();
        ExecIr { body, block_compile_order }
    }
}

} // verus!
