//! The builder: blocks, parameters, stack slots and the primitive emitters.
use vstd::prelude::*;
use arrayvec::ArrayVec;
use crate::inline_list::{pair_items, pair_new, pair_push, InlineList};
use crate::ir::model::{
    binds, folded, lemma_add_parameter, lemma_at, lemma_create_block, lemma_emit, lemma_mark_cold,
    lemma_terminate, lemma_wf, passes, IrView, StmtView,
};
use crate::ir::types::{
    AliasRegion, Arg, Block, BlockData, BlockView, HostCallback, IConst, IntWidth, LoadType,
    SSAValue, StackSlot, StackSlotData, Stmt, StmtData, StmtKind, Terminator, Type, TypeFull,
};

verus! {

/// An in-progress IR function under construction.
///
/// The builder tracks a *current block* that all emitters append to; use
/// [`create_block`](Self::create_block), [`switch_to`](Self::switch_to), and
/// [`terminate`](Self::terminate) to shape the control-flow graph, and call
/// `build` when the function is complete.
pub struct ExecIrBuilder {
    pub ssa_values: Vec<TypeFull>,
    pub blocks: Vec<BlockData>,
    pub stmts: Vec<StmtData>,
    pub calls: Vec<InlineList>,
    pub stack_slots: Vec<StackSlotData>,
    pub scratch_space: Option<StackSlot>,
    pub leave_and_take_halt: Option<Block>,
    pub current_block: Block,
    pub halt_check_every: u32,
}

/// Configuration for an [`ExecIrBuilder`].
pub struct IrBuilderConfig {
    /// How many safepoints may pass between halt checks: the halt-check
    /// pass guarantees at least one check every `halt_check_every`
    /// safepoints along any execution path. It is not zero.
    pub halt_check_every: u32,
}

impl Default for IrBuilderConfig {
    fn default() -> (r: Self)
        ensures
            r.halt_check_every == 128,
    {
        IrBuilderConfig { halt_check_every: 128 }
    }
}

impl Default for ExecIrBuilder {
    fn default() -> (r: Self)
        ensures
            r.wf(),
            r@ == IrView::start(128),
    {
        Self::with_config(IrBuilderConfig::default())
    }
}

impl View for StmtData {
    type V = StmtView;

    open spec fn view(&self) -> StmtView {
        StmtView { outputs: pair_items(self.outputs), rvalue: self.rvalue }
    }
}

impl View for ExecIrBuilder {
    type V = IrView;

    open spec fn view(&self) -> IrView {
        IrView {
            types: self.ssa_values@,
            blocks: self.blocks@.map_values(|block: BlockData| block@),
            stmts: self.stmts@.map_values(|stmt: StmtData| stmt@),
            calls: self.calls@.map_values(|args: InlineList| args@),
            slots: self.stack_slots@,
            scratch_space: self.scratch_space,
            leave_and_take_halt: self.leave_and_take_halt,
            current: self.current_block,
            halt_check_every: self.halt_check_every,
        }
    }
}

/// Whether two lists hold the same items.
fn same_items(a: &InlineList, b: &InlineList) -> (r: bool)
    ensures
        r == (a@ == b@),
{
    let n: usize = a.len();
    if b.len() != n {
        return false;
    }
    let mut i: usize = 0;
    while i < n
        invariant
            n == a@.len(),
            n == b@.len(),
            i <= n,
            forall|k: int| 0 <= k < i ==> a@[k] == b@[k],
        decreases n - i,
    {
        if a.get(i) != b.get(i) {
            return false;
        }
        i = i + 1;
    }
    assert(a@ =~= b@);
    true
}

impl ExecIrBuilder {
    pub open spec fn wf(self) -> bool {
        self@.wf()
    }

    /// Creates a new builder with the given configuration, positioned at the
    /// entry block.
    pub fn with_config(config: IrBuilderConfig) -> (r: Self)
        requires
            config.halt_check_every > 0,
        ensures
            r.wf(),
            r@ == IrView::start(config.halt_check_every),
    {
        let ssa_values: Vec<TypeFull> = vec![
            Arg::ExecState.ty(),
            Arg::ExecContext.ty(),
            Arg::Tlb.ty(),
            Arg::IoMMUIdentifier.ty(),
            Arg::HaltReasonPtr.ty(),
            Arg::IoMMU.ty(),
        ];
        let mut entry = BlockData::empty();
        let args: Vec<Arg> = Arg::args();
        let mut i: usize = 0;
        while i < args.len()
            invariant
                args@ == Seq::new(6, |place: int| Arg::at(place)),
                i <= args.len(),
                entry@ == (BlockView {
                    parameters: Seq::new(
                        i as nat,
                        |place: int| Arg::at(place).spec_value().index,
                    ),
                    ..BlockView::blank()
                }),
            decreases args.len() - i,
        {
            entry.parameters.push(args[i].as_ssa_value().index);
            i = i + 1;
            assert(entry.parameters@ =~= Seq::new(
                i as nat,
                |place: int| Arg::at(place).spec_value().index,
            ));
        }
        let r = ExecIrBuilder {
            ssa_values,
            blocks: vec![entry],
            stmts: Vec::new(),
            calls: Vec::new(),
            stack_slots: Vec::new(),
            scratch_space: None,
            leave_and_take_halt: None,
            current_block: Block::ENTRYPOINT(),
            halt_check_every: config.halt_check_every,
        };
        assert(r@ =~= IrView::start(config.halt_check_every));
        proof {
            reveal(IrView::wf);
            reveal(IrView::bound_once);
            let start = r@;
            assert forall|b: int, i: int, x: u64| !(#[trigger] binds(start, b, i, x)) by {}
            assert forall|b: int, i: int, x: u64| #[trigger] passes(start, b, i, x) implies b == 0
                && x == Arg::at(i).spec_value().index by {}
        }
        r
    }

    /// Returns the block that emitters currently append to.
    pub fn current_block(&self) -> (r: Block)
        ensures
            r == self@.current,
    {
        self.current_block
    }

    /// Creates a new, empty block. The current block is left unchanged.
    pub fn create_block(&mut self) -> (r: Block)
        requires
            old(self).wf(),
        ensures
            final(self).wf(),
            old(self)@.grows_to(final(self)@),
            (final(self)@, r) == old(self)@.create_block(),
            r.index == old(self)@.blocks.len(),
    {
        let r = Block { index: self.blocks.len() as u64 };
        self.blocks.push(BlockData::empty());
        proof {
            assert(self.blocks.len() == old(self)@.blocks.len() + 1);
            assert(self@ =~= old(self)@.create_block().0);
            lemma_create_block(old(self)@);
        }
        r
    }

    /// Makes `block` the current block that emitters append to. The block that
    /// takes the halt reason is finished and cannot be appended to.
    pub fn switch_to(&mut self, block: Block)
        requires
            old(self).wf(),
            old(self)@.may_change(block),
        ensures
            final(self).wf(),
            final(self)@ == old(self)@.at(block),
    {
        self.current_block = block;
        assert(self@ =~= old(self)@.at(block));
        proof {
            lemma_at(old(self)@, block);
        }
    }

    /// Runs `emitter` with `block` as the current block, restoring the
    /// previous current block afterward.
    pub fn block_scope<T, F: FnOnce(&mut Self) -> T>(&mut self, block: Block, emitter: F) -> (r: T)
        requires
            old(self).wf(),
            old(self)@.may_change(block),
            forall|builder: &mut Self|
                builder.wf() && builder@ == old(self)@.at(block) ==> #[trigger] emitter.requires(
                    (builder,),
                ),
            forall|builder: &mut Self, value: T|
                builder@ == old(self)@.at(block) && #[trigger] emitter.ensures((builder,), value)
                    ==> final(builder).wf() && builder@.grows_to(final(builder)@),
        ensures
            final(self).wf(),
            exists|builder: &mut Self| #[trigger]
                emitter.ensures((builder,), r) && builder@ == old(self)@.at(block) && final(self)@
                    == final(builder)@.at(old(self)@.current),
    {
        let original_block: Block = self.current_block;
        proof {
            lemma_wf(self@);
        }
        self.switch_to(block);
        let r = emitter(self);
        self.switch_to(original_block);
        r
    }

    /// Returns the distinct blocks that `block`'s terminator can branch to.
    pub fn successors(&self, block: Block) -> (r: ArrayVec<u64, 2>)
        requires
            self@.has_block(block),
        ensures
            pair_items(r) == self@.block(block).terminator.targets(),
    {
        assert(self.blocks.len() == self@.blocks.len());
        self.blocks[block.index as usize].terminator.block_targets()
    }

    /// Marks `block` as cold, hinting the backends to place it out of the
    /// hot path.
    ///
    /// If the block is the entry, it is silently exempt, since it always
    /// runs when the chunk is called, so it can never be cold.
    pub fn mark_block_bold(&mut self, block: Block)
        requires
            old(self).wf(),
            old(self)@.has_block(block),
        ensures
            final(self).wf(),
            old(self)@.grows_to(final(self)@),
            final(self)@ == old(self)@.mark_cold(block),
    {
        if block != Block::ENTRYPOINT() {
            assert(self.blocks.len() == self@.blocks.len());
            self.blocks[block.index as usize].is_cold = true;
        }
        proof {
            assert(self@ =~= old(self)@.mark_cold(block));
            lemma_mark_cold(old(self)@, block);
        }
    }

    /// Marks the current block as cold; see
    /// [`mark_block_bold`](Self::mark_block_bold).
    pub fn mark_current_block_cold(&mut self)
        requires
            old(self).wf(),
        ensures
            final(self).wf(),
            old(self)@.grows_to(final(self)@),
            final(self)@ == old(self)@.mark_cold(old(self)@.current),
    {
        proof {
            lemma_wf(self@);
        }
        self.mark_block_bold(self.current_block)
    }

    /// Ends `block` with `terminator`. The block must not have ended yet, the
    /// operand of the terminator must be an integer, or, for a branch, a
    /// boolean, and no target may be the entry block.
    pub fn terminate_block(&mut self, block: Block, terminator: Terminator)
        requires
            old(self).wf(),
            old(self)@.has_block(block),
            !old(self)@.block(block).terminated,
            old(self)@.terminator_ok(terminator@),
        ensures
            final(self).wf(),
            old(self)@.grows_to(final(self)@),
            final(self)@ == old(self)@.terminate(block, terminator@),
    {
        let ghost view = terminator@;
        let terminator = match terminator {
            Terminator::BrZ(cond, zero, non_zero) => if zero.target == non_zero.target
                && same_items(&zero.parameters, &non_zero.parameters) {
                Terminator::Br(zero)
            } else {
                Terminator::BrZ(cond, zero, non_zero)
            },
            other => other,
        };
        assert(terminator@ == folded(view));
        assert(self.blocks.len() == self@.blocks.len());
        let at: usize = block.index as usize;
        self.blocks[at].terminator = terminator;
        self.blocks[at].terminated = true;
        proof {
            lemma_wf(old(self)@);
            assert(self@ =~= old(self)@.terminate(block, view));
            lemma_terminate(old(self)@, block, view);
        }
    }

    /// Ends the current block with `terminator`; see
    /// [`terminate_block`](Self::terminate_block).
    pub fn terminate(&mut self, terminator: Terminator)
        requires
            old(self).wf(),
            !old(self)@.block(old(self)@.current).terminated,
            old(self)@.terminator_ok(terminator@),
        ensures
            final(self).wf(),
            old(self)@.grows_to(final(self)@),
            final(self)@ == old(self)@.terminate(old(self)@.current, terminator@),
    {
        proof {
            lemma_wf(self@);
        }
        let block = self.current_block;
        self.terminate_block(block, terminator)
    }

    /// Appends a parameter of type `ty` to `block`, returning the
    /// [`SSAValue`] the parameter binds. Every [`Jump`] to `block` must pass
    /// a matching value.
    pub fn add_block_parameter_at(&mut self, block: Block, ty: Type) -> (r: SSAValue)
        requires
            old(self).wf(),
            old(self)@.may_change(block),
        ensures
            final(self).wf(),
            old(self)@.grows_to(final(self)@),
            (final(self)@, r) == old(self)@.add_parameter(
                block,
                match ty {
                    Type::Int(width) => TypeFull::Int(width),
                    Type::Bool => TypeFull::Bool,
                },
            ),
            r.index == old(self)@.types.len(),
    {
        let ty = TypeFull::from(ty);
        assert(self.blocks.len() == self@.blocks.len());
        let index: u64 = self.ssa_values.len() as u64;
        self.ssa_values.push(ty);
        self.blocks[block.index as usize].parameters.push(index);
        proof {
            assert(self.ssa_values.len() == old(self)@.types.len() + 1);
            assert(self@ =~= old(self)@.add_parameter(block, ty).0);
            lemma_add_parameter(old(self)@, block, ty);
        }
        SSAValue { index }
    }

    /// Appends a parameter of type `ty` to the current block; see
    /// [`add_block_parameter_at`](Self::add_block_parameter_at).
    pub fn add_block_parameter(&mut self, ty: Type) -> (r: SSAValue)
        requires
            old(self).wf(),
        ensures
            final(self).wf(),
            old(self)@.grows_to(final(self)@),
            (final(self)@, r) == old(self)@.add_parameter(
                old(self)@.current,
                match ty {
                    Type::Int(width) => TypeFull::Int(width),
                    Type::Bool => TypeFull::Bool,
                },
            ),
            r.index == old(self)@.types.len(),
    {
        proof {
            lemma_wf(self@);
        }
        let block = self.current_block;
        self.add_block_parameter_at(block, ty)
    }

    fn ty(&self, value: SSAValue) -> (r: TypeFull)
        requires
            self@.has(value),
        ensures
            r == self@.ty(value),
    {
        assert(self.ssa_values.len() == self@.types.len());
        self.ssa_values[value.index as usize]
    }

    /// The types of the values that a statement binds.
    pub fn type_of(&self, rvalue: &StmtKind) -> (r: Vec<TypeFull>)
        requires
            self@.typed(*rvalue),
        ensures
            r@ == self@.output_types(*rvalue),
            r@.len() <= 2,
    {
        let r: Vec<TypeFull> = match *rvalue {
            StmtKind::IConst(constant) => vec![TypeFull::Int(constant.width())],
            StmtKind::ArithBinOp { op: _, lhs, rhs: _ } => vec![self.ty(lhs)],
            StmtKind::Bitwise { op: _, lhs, rhs: _ } => vec![self.ty(lhs)],
            StmtKind::BitwiseImm { op: _, lhs, rhs: _ } => vec![self.ty(lhs)],
            StmtKind::BitNot(value) => vec![self.ty(value)],
            StmtKind::IntNeg(value) => vec![self.ty(value)],
            StmtKind::Shift { op: _, value, shift: _ } => vec![self.ty(value)],
            StmtKind::ShiftUnbounded { op: _, value, shift: _ } => vec![self.ty(value)],
            StmtKind::ShiftImm { op: _, value, shift: _ } => vec![self.ty(value)],
            StmtKind::Select { cond: _, if_true, if_false: _ } => vec![self.ty(if_true)],
            StmtKind::OverflowingBinOp { op: _, lhs, rhs: _ } => vec![
                self.ty(lhs),
                TypeFull::Bool,
            ],
            StmtKind::IntCmp { .. } => vec![TypeFull::Bool],
            StmtKind::IntCmpImm { .. } => vec![TypeFull::Bool],
            StmtKind::LoadHost { ty, .. } => match ty {
                LoadType::Int(width) => vec![TypeFull::Int(width)],
                LoadType::HostPtr(region) => vec![TypeFull::HostPtr(region)],
            },
            StmtKind::StoreHost { .. } => vec![],
            StmtKind::LoadStackPtr { .. } => vec![TypeFull::HostPtr(AliasRegion::ScratchSpace)],
            StmtKind::PtrAdd { base_ptr, .. } => vec![self.ty(base_ptr)],
            StmtKind::PtrEq(_, _) => vec![TypeFull::Bool],
            StmtKind::HasTag { .. } => vec![TypeFull::Bool],
            StmtKind::Untag { ptr, .. } => vec![self.ty(ptr)],
            StmtKind::HostCallback { func: _, signature, args: _ } => match signature.ret() {
                None => vec![],
                Some(ret) => vec![ret],
            },
            StmtKind::VMLoadRaw { width, .. } => vec![TypeFull::Int(width)],
            StmtKind::VMStoreRaw { .. } => vec![],
            StmtKind::LoadHaltReason => vec![TypeFull::Int(IntWidth::W32)],
            StmtKind::TakeHaltReason => vec![TypeFull::Int(IntWidth::W32)],
            StmtKind::SetPageDirtyFlag(_) => vec![],
            StmtKind::Safepoint => vec![],
        };
        assert(r@ =~= self@.output_types(*rvalue));
        r
    }

    /// Appends a statement to the current block and gives the values that it
    /// binds.
    fn emit_stmt_full(&mut self, rvalue: StmtKind) -> (r: ArrayVec<u64, 2>)
        requires
            old(self).wf(),
            old(self)@.typed(rvalue),
        ensures
            emitted(old(self)@, final(self)@, rvalue),
            pair_items(r) == Seq::new(
                old(self)@.output_types(rvalue).len(),
                |i: int| (old(self)@.types.len() + i) as u64,
            ),
    {
        let ghost v = self@;
        proof {
            lemma_wf(v);
        }
        let types: Vec<TypeFull> = self.type_of(&rvalue);
        let mut outputs: ArrayVec<u64, 2> = pair_new();
        let mut shared: ArrayVec<u64, 2> = pair_new();
        let mut i: usize = 0;
        while i < types.len()
            invariant
                types@ == v.output_types(rvalue),
                types@.len() <= 2,
                i <= types.len(),
                self.ssa_values@ == v.types + types@.subrange(0, i as int),
                self.blocks == old(self).blocks,
                self.stmts == old(self).stmts,
                self.calls == old(self).calls,
                self.stack_slots == old(self).stack_slots,
                self.scratch_space == old(self).scratch_space,
                self.leave_and_take_halt == old(self).leave_and_take_halt,
                self.current_block == old(self).current_block,
                self.halt_check_every == old(self).halt_check_every,
                pair_items(outputs) == Seq::new(i as nat, |k: int| (v.types.len() + k) as u64),
                pair_items(shared) == pair_items(outputs),
            decreases types.len() - i,
        {
            let index: u64 = self.ssa_values.len() as u64;
            self.ssa_values.push(types[i]);
            pair_push(&mut outputs, index);
            pair_push(&mut shared, index);
            i = i + 1;
            assert(self.ssa_values@ =~= v.types + types@.subrange(0, i as int));
            assert(pair_items(outputs) =~= Seq::new(
                i as nat,
                |k: int| (v.types.len() + k) as u64,
            ));
        }
        let ghost bound = pair_items(outputs);
        assert(self.blocks.len() == v.blocks.len());
        let stmt = Stmt { index: self.stmts.len() as u64 };
        self.stmts.push(StmtData { outputs, rvalue });
        self.blocks[self.current_block.index as usize].stmts.push(stmt);
        proof {
            assert(self.ssa_values.len() == v.types.len() + v.output_types(rvalue).len());
            assert(self.stmts.len() == v.stmts.len() + 1);
            reveal(IrView::emit);
            assert(types@.subrange(0, i as int) =~= v.output_types(rvalue));
            assert(self@.stmts =~= v.emit(rvalue).stmts);
            assert(self@.blocks =~= v.emit(rvalue).blocks);
            assert(self@ =~= v.emit(rvalue));
            lemma_emit(v, rvalue);
        }
        shared
    }

    /// Appends a statement that binds no value.
    pub fn emit_void_stmt(&mut self, rvalue: StmtKind)
        requires
            old(self).wf(),
            old(self)@.typed(rvalue),
            old(self)@.output_types(rvalue).len() == 0,
        ensures
            emitted(old(self)@, final(self)@, rvalue),
    {
        let _ = self.emit_stmt_full(rvalue);
    }

    /// Appends a statement that binds one value.
    pub fn emit_1ret_stmt(&mut self, rvalue: StmtKind) -> (r: SSAValue)
        requires
            old(self).wf(),
            old(self)@.typed(rvalue),
            old(self)@.output_types(rvalue).len() == 1,
        ensures
            emitted(old(self)@, final(self)@, rvalue),
            (final(self)@, r) == old(self)@.emit1(rvalue),
            r.index == old(self)@.types.len(),
    {
        let outputs: ArrayVec<u64, 2> = self.emit_stmt_full(rvalue);
        proof {
            lemma_wf(self@);
        }
        SSAValue { index: crate::inline_list::pair_as_slice(&outputs)[0] }
    }

    /// Appends a statement that binds two values.
    pub fn emit_2ret_stmt(&mut self, rvalue: StmtKind) -> (r: (SSAValue, SSAValue))
        requires
            old(self).wf(),
            old(self)@.typed(rvalue),
            old(self)@.output_types(rvalue).len() == 2,
        ensures
            emitted(old(self)@, final(self)@, rvalue),
            (final(self)@, r.0) == old(self)@.emit1(rvalue),
            r.0.index == old(self)@.types.len(),
            r.1.index == old(self)@.types.len() + 1,
    {
        let outputs: ArrayVec<u64, 2> = self.emit_stmt_full(rvalue);
        proof {
            lemma_wf(self@);
        }
        let items = crate::inline_list::pair_as_slice(&outputs);
        (SSAValue { index: items[0] }, SSAValue { index: items[1] })
    }
}

/// What appending a statement does.
pub open spec fn emitted(a: IrView, b: IrView, rvalue: StmtKind) -> bool {
    &&& b.wf()
    &&& b == a.emit(rvalue)
    &&& a.grows_to(b)
    &&& b.types == a.types + a.output_types(rvalue)
    &&& b.blocks.len() == a.blocks.len()
    &&& b.current == a.current
    &&& b.scratch_space == a.scratch_space
    &&& b.leave_and_take_halt == a.leave_and_take_halt
    &&& forall|i: int|
        0 <= i < a.blocks.len() ==> (#[trigger] b.blocks[i]).terminated == a.blocks[i].terminated
}

} // verus!
