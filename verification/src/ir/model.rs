//! The IR under construction as a mathematical value, and what each
//! primitive step of the builder does to it.
use vstd::prelude::*;
use crate::ir::types::{
    AliasRegion, Arg, Block, BlockView, CallArgs, CallbackSignature, HostCallback, IConst,
    IntWidth, JumpView, LoadType, SSAValue, StackSlot, StackSlotData, Stmt, StmtKind,
    TerminatorView, TypeFull,
};

verus! {

/// A statement as a mathematical value.
#[verifier::ext_equal]
pub struct StmtView {
    pub outputs: Seq<u64>,
    pub rvalue: StmtKind,
}

/// The IR under construction.
#[verifier::ext_equal]
pub struct IrView {
    /// The type of each value.
    pub types: Seq<TypeFull>,
    pub blocks: Seq<BlockView>,
    pub stmts: Seq<StmtView>,
    /// The arguments of each host call.
    pub calls: Seq<Seq<u64>>,
    pub slots: Seq<StackSlotData>,
    pub scratch_space: Option<StackSlot>,
    pub leave_and_take_halt: Option<Block>,
    pub current: Block,
    pub halt_check_every: u32,
}

/// Whether values of a type can be operands of bitwise operations.
pub open spec fn bitwise_ty(ty: TypeFull) -> bool {
    ty is Int || ty is Bool
}

/// A conditional branch both of whose edges are the same is unconditional.
pub open spec fn folded(terminator: TerminatorView) -> TerminatorView {
    match terminator {
        TerminatorView::BrZ(_, zero, non_zero) => if zero == non_zero {
            TerminatorView::Br(zero)
        } else {
            terminator
        },
        _ => terminator,
    }
}

impl IrView {
    /// A function with nothing in it but its arguments.
    pub open spec fn start(halt_check_every: u32) -> IrView {
        IrView {
            types: seq![
                Arg::ExecState.spec_ty(),
                Arg::ExecContext.spec_ty(),
                Arg::Tlb.spec_ty(),
                Arg::IoMMUIdentifier.spec_ty(),
                Arg::HaltReasonPtr.spec_ty(),
                Arg::IoMMU.spec_ty(),
            ],
            blocks: seq![
                BlockView {
                    parameters: Seq::new(6, |place: int| Arg::at(place).spec_value().index),
                    ..BlockView::blank()
                },
            ],
            stmts: Seq::empty(),
            calls: Seq::empty(),
            slots: Seq::empty(),
            scratch_space: None,
            leave_and_take_halt: None,
            current: Block::entrypoint(),
            halt_check_every,
        }
    }

    pub open spec fn has(self, value: SSAValue) -> bool {
        value.index < self.types.len()
    }

    pub open spec fn ty(self, value: SSAValue) -> TypeFull {
        self.types[value.index as int]
    }

    pub open spec fn is_int(self, value: SSAValue, width: IntWidth) -> bool {
        self.has(value) && self.ty(value) == TypeFull::Int(width)
    }

    pub open spec fn is_bool(self, value: SSAValue) -> bool {
        self.has(value) && self.ty(value) == TypeFull::Bool
    }

    /// The width of an integer value.
    pub open spec fn width(self, value: SSAValue) -> IntWidth {
        self.ty(value)->Int_0
    }

    /// Two integers of one width.
    pub open spec fn same_ints(self, lhs: SSAValue, rhs: SSAValue) -> bool {
        self.has(lhs) && self.has(rhs) && self.ty(lhs) is Int && self.ty(lhs) == self.ty(rhs)
    }

    pub open spec fn has_block(self, block: Block) -> bool {
        block.index < self.blocks.len()
    }

    pub open spec fn block(self, block: Block) -> BlockView {
        self.blocks[block.index as int]
    }

    /// The operands of a statement have the types that it asks for.
    pub open spec fn typed(self, rvalue: StmtKind) -> bool {
        match rvalue {
            StmtKind::IConst(constant) => constant.wf(),
            StmtKind::ArithBinOp { op: _, lhs, rhs } => self.same_ints(lhs, rhs),
            StmtKind::IntNeg(value) => self.has(value) && self.ty(value) is Int,
            StmtKind::OverflowingBinOp { op: _, lhs, rhs } => self.same_ints(lhs, rhs),
            StmtKind::IntCmp { predicate: _, lhs, rhs } => self.same_ints(lhs, rhs),
            StmtKind::IntCmpImm { predicate: _, lhs, rhs } => self.has(lhs) && self.ty(lhs) is Int && rhs
                <= self.width(lhs).mask(),
            StmtKind::Select { cond, if_true, if_false } => self.is_bool(cond) && self.has(if_true)
                && self.has(if_false) && self.ty(if_true) == self.ty(if_false),
            StmtKind::Bitwise { op: _, lhs, rhs } => self.has(lhs) && self.has(rhs) && self.ty(lhs)
                == self.ty(rhs) && bitwise_ty(self.ty(lhs)),
            StmtKind::BitwiseImm { op: _, lhs, rhs } => self.has(lhs) && self.ty(lhs) is Int && rhs
                <= self.width(lhs).mask(),
            StmtKind::BitNot(value) => self.has(value) && bitwise_ty(self.ty(value)),
            StmtKind::Shift { op: _, value, shift } => self.has(value) && self.has(shift)
                && self.ty(value) is Int && self.ty(shift) is Int,
            StmtKind::ShiftUnbounded { op: _, value, shift } => self.has(value) && self.has(shift)
                && self.ty(value) is Int && self.ty(shift) is Int,
            StmtKind::ShiftImm { op: _, value, shift } => self.has(value) && self.ty(value) is Int
                && shift < self.width(value).spec_bits(),
            StmtKind::LoadHost { ty: _, base_ptr, offset: _, can_move: _ } => self.has(base_ptr)
                && self.ty(base_ptr) is HostPtr,
            StmtKind::StoreHost { base_ptr, offset: _, value, can_move: _ } => self.has(base_ptr)
                && self.ty(base_ptr) is HostPtr && self.has(value) && self.ty(value) is Int,
            StmtKind::LoadStackPtr { slot } => slot.index < self.slots.len(),
            StmtKind::PtrAdd { base_ptr, offset, elem_size } => self.has(base_ptr) && self.ty(
                base_ptr,
            ) is HostPtr && self.is_int(offset, IntWidth::W64) && elem_size > 0,
            StmtKind::PtrEq(a, b) => self.has(a) && self.has(b) && self.ty(a) is HostPtr && self.ty(
                b,
            ) is HostPtr,
            StmtKind::HasTag { ptr, tag_bits: _ } => self.has(ptr) && self.ty(ptr) is HostPtr,
            StmtKind::Untag { ptr, tag_bits: _ } => self.has(ptr) && self.ty(ptr) is HostPtr,
            StmtKind::HostCallback { func: _, signature, args } => args.index < self.calls.len()
                && self.fits(signature, self.calls[args.index as int]),
            StmtKind::VMLoadRaw { aligned_page_ptr, page_offset, width: _, seq_cst: _ } => self.has(
                aligned_page_ptr,
            ) && self.ty(aligned_page_ptr) is HostPtr && self.is_int(page_offset, IntWidth::W64),
            StmtKind::VMStoreRaw { aligned_page_ptr, page_offset, value, seq_cst: _ } => self.has(
                aligned_page_ptr,
            ) && self.ty(aligned_page_ptr) is HostPtr && self.is_int(page_offset, IntWidth::W64)
                && self.has(value) && self.ty(value) is Int,
            StmtKind::LoadHaltReason => true,
            StmtKind::TakeHaltReason => true,
            StmtKind::SetPageDirtyFlag(ptr) => self.has(ptr) && self.ty(ptr) is HostPtr,
            StmtKind::Safepoint => true,
        }
    }

    /// The arguments of a host call have the types of the signature.
    pub open spec fn fits(self, signature: CallbackSignature, args: Seq<u64>) -> bool {
        &&& args.len() == signature.spec_args().len()
        &&& forall|i: int|
            0 <= i < args.len() ==> (#[trigger] args[i]) < self.types.len()
                && self.types[args[i] as int] == signature.spec_args()[i]
    }

    /// The types of the values that a statement binds.
    pub open spec fn output_types(self, rvalue: StmtKind) -> Seq<TypeFull> {
        match rvalue {
            StmtKind::IConst(constant) => seq![TypeFull::Int(constant.width)],
            StmtKind::ArithBinOp { op: _, lhs, rhs: _ } => seq![self.ty(lhs)],
            StmtKind::IntNeg(value) => seq![self.ty(value)],
            StmtKind::OverflowingBinOp { op: _, lhs, rhs: _ } => seq![self.ty(lhs), TypeFull::Bool],
            StmtKind::IntCmp { .. } => seq![TypeFull::Bool],
            StmtKind::IntCmpImm { .. } => seq![TypeFull::Bool],
            StmtKind::Select { cond: _, if_true, if_false: _ } => seq![self.ty(if_true)],
            StmtKind::Bitwise { op: _, lhs, rhs: _ } => seq![self.ty(lhs)],
            StmtKind::BitwiseImm { op: _, lhs, rhs: _ } => seq![self.ty(lhs)],
            StmtKind::BitNot(value) => seq![self.ty(value)],
            StmtKind::Shift { op: _, value, shift: _ } => seq![self.ty(value)],
            StmtKind::ShiftUnbounded { op: _, value, shift: _ } => seq![self.ty(value)],
            StmtKind::ShiftImm { op: _, value, shift: _ } => seq![self.ty(value)],
            StmtKind::LoadHost { ty, .. } => match ty {
                LoadType::Int(width) => seq![TypeFull::Int(width)],
                LoadType::HostPtr(region) => seq![TypeFull::HostPtr(region)],
            },
            StmtKind::StoreHost { .. } => Seq::empty(),
            StmtKind::LoadStackPtr { .. } => seq![TypeFull::HostPtr(AliasRegion::ScratchSpace)],
            StmtKind::PtrAdd { base_ptr, .. } => seq![self.ty(base_ptr)],
            StmtKind::PtrEq(_, _) => seq![TypeFull::Bool],
            StmtKind::HasTag { .. } => seq![TypeFull::Bool],
            StmtKind::Untag { ptr, .. } => seq![self.ty(ptr)],
            StmtKind::HostCallback { func: _, signature, args: _ } => match signature.spec_ret() {
                None => Seq::empty(),
                Some(ret) => seq![ret],
            },
            StmtKind::VMLoadRaw { width, .. } => seq![TypeFull::Int(width)],
            StmtKind::VMStoreRaw { .. } => Seq::empty(),
            StmtKind::LoadHaltReason => seq![TypeFull::Int(IntWidth::W32)],
            StmtKind::TakeHaltReason => seq![TypeFull::Int(IntWidth::W32)],
            StmtKind::SetPageDirtyFlag(_) => Seq::empty(),
            StmtKind::Safepoint => Seq::empty(),
        }
    }

    /// A branch edge goes to a block of the function that is not its entry.
    pub open spec fn jump_ok(self, jump: JumpView) -> bool {
        &&& 0 < jump.target.index < self.blocks.len()
        &&& forall|i: int|
            0 <= i < jump.parameters.len() ==> (#[trigger] jump.parameters[i]) < self.types.len()
    }

    pub open spec fn terminator_ok(self, terminator: TerminatorView) -> bool {
        match terminator {
            TerminatorView::Return => true,
            TerminatorView::ReturnCode(value) => self.has(value) && self.ty(value) is Int,
            TerminatorView::Br(jump) => self.jump_ok(jump),
            TerminatorView::BrZ(cond, zero, non_zero) => self.has(cond) && bitwise_ty(self.ty(cond))
                && self.jump_ok(zero) && self.jump_ok(non_zero),
        }
    }

    pub open spec fn block_ok(self, block: BlockView) -> bool {
        &&& self.terminator_ok(block.terminator)
        &&& forall|i: int|
            0 <= i < block.stmts.len() ==> (#[trigger] block.stmts[i]).index < self.stmts.len()
        &&& forall|i: int|
            0 <= i < block.parameters.len() ==> (#[trigger] block.parameters[i])
                < self.types.len()
    }

    pub open spec fn stmt_ok(self, stmt: StmtView) -> bool {
        &&& self.typed(stmt.rvalue)
        &&& stmt.outputs.len() == self.output_types(stmt.rvalue).len()
        &&& forall|i: int|
            0 <= i < stmt.outputs.len() ==> (#[trigger] stmt.outputs[i]) < self.types.len()
                && self.types[stmt.outputs[i] as int] == self.output_types(stmt.rvalue)[i]
    }

    /// A cold block that takes nothing, takes the halt reason and returns it.
    pub open spec fn leaves(self, block: Block) -> bool {
        let data = self.block(block);
        let taking = self.stmts[data.stmts[0].index as int];
        &&& 0 < block.index < self.blocks.len()
        &&& data.is_cold
        &&& data.terminated
        &&& data.parameters.len() == 0
        &&& data.stmts.len() == 1
        &&& data.stmts[0].index < self.stmts.len()
        &&& taking.rvalue == StmtKind::TakeHaltReason
        &&& data.terminator matches TerminatorView::ReturnCode(reason) && taking.outputs
            == seq![reason.index]
    }

    /// The block is there, and is not the one that takes the halt reason,
    /// which is finished once it is made.
    pub open spec fn may_change(self, block: Block) -> bool {
        &&& self.has_block(block)
        &&& self.leave_and_take_halt != Some(block)
    }

    /// Every statement is typed, every handle leads somewhere, and the block
    /// that takes the halt reason does so.
    #[verifier::opaque]
    pub open spec fn wf(self) -> bool {
        &&& 6 <= self.types.len() <= u64::MAX
        &&& forall|arg: Arg| self.ty(#[trigger] arg.spec_value()) == arg.spec_ty()
        &&& self.stmts.len() <= u64::MAX
        &&& self.calls.len() <= u64::MAX
        &&& self.slots.len() <= u64::MAX
        &&& self.blocks.len() <= u64::MAX
        &&& self.current.index < self.blocks.len()
        &&& forall|b: int| 0 <= b < self.blocks.len() ==> self.block_ok(#[trigger] self.blocks[b])
        &&& forall|s: int| 0 <= s < self.stmts.len() ==> self.stmt_ok(#[trigger] self.stmts[s])
        &&& self.scratch_space matches Some(slot) ==> slot.index < self.slots.len()
        &&& self.leave_and_take_halt matches Some(block) ==> self.leaves(block)
        &&& self.leave_and_take_halt != Some(self.current)
        &&& self.halt_check_every > 0
        &&& self.bound_once()
    }

    /// Every value is bound in one place, and the entry takes the arguments.
    #[verifier::opaque]
    pub open spec fn bound_once(self) -> bool {
        &&& single_assignment(self)
        &&& self.blocks[0].parameters.len() >= 6
        &&& forall|place: int|
            0 <= place < 6 ==> #[trigger] self.blocks[0].parameters[place] == Arg::at(
                place,
            ).spec_value().index
    }

    /// The next value that a statement will bind.
    pub open spec fn next(self) -> SSAValue {
        SSAValue { index: self.types.len() as u64 }
    }

    /// With another current block.
    pub open spec fn at(self, block: Block) -> IrView {
        IrView { current: block, ..self }
    }

    /// Appends a statement to the current block.
    #[verifier::opaque]
    pub open spec fn emit(self, rvalue: StmtKind) -> IrView {
        let types = self.output_types(rvalue);
        let outputs = Seq::new(types.len(), |i: int| (self.types.len() + i) as u64);
        let block = self.block(self.current);
        IrView {
            types: self.types + types,
            stmts: self.stmts.push(StmtView { outputs, rvalue }),
            blocks: self.blocks.update(
                self.current.index as int,
                BlockView {
                    stmts: block.stmts.push(Stmt { index: self.stmts.len() as u64 }),
                    ..block
                },
            ),
            ..self
        }
    }

    /// Appends a statement, and gives the first value that it binds.
    pub open spec fn emit1(self, rvalue: StmtKind) -> (IrView, SSAValue) {
        (self.emit(rvalue), self.next())
    }

    /// Adds an empty block.
    pub open spec fn create_block(self) -> (IrView, Block) {
        (
            IrView { blocks: self.blocks.push(BlockView::blank()), ..self },
            Block { index: self.blocks.len() as u64 },
        )
    }

    /// Marks a block as cold, unless it is the entry.
    pub open spec fn mark_cold(self, block: Block) -> IrView {
        if block == Block::entrypoint() {
            self
        } else {
            IrView {
                blocks: self.blocks.update(
                    block.index as int,
                    BlockView { is_cold: true, ..self.block(block) },
                ),
                ..self
            }
        }
    }

    /// Ends a block.
    pub open spec fn terminate(self, block: Block, terminator: TerminatorView) -> IrView {
        IrView {
            blocks: self.blocks.update(
                block.index as int,
                BlockView {
                    terminated: true,
                    terminator: folded(terminator),
                    ..self.block(block)
                },
            ),
            ..self
        }
    }

    /// Appends a parameter to a block.
    pub open spec fn add_parameter(self, block: Block, ty: TypeFull) -> (IrView, SSAValue) {
        let data = self.block(block);
        (
            IrView {
                types: self.types.push(ty),
                blocks: self.blocks.update(
                    block.index as int,
                    BlockView { parameters: data.parameters.push(self.next().index), ..data },
                ),
                ..self
            },
            self.next(),
        )
    }

    /// Reserves stack space.
    pub open spec fn create_slot(self, size: u32, align: u8) -> (IrView, StackSlot) {
        (
            IrView { slots: self.slots.push(StackSlotData { size, align }), ..self },
            StackSlot { index: self.slots.len() as u64 },
        )
    }

    /// Calls a function of the host.
    pub open spec fn call_host(
        self,
        func: HostCallback,
        signature: CallbackSignature,
        args: Seq<u64>,
    ) -> (IrView, SSAValue) {
        let called = IrView { calls: self.calls.push(args), ..self };
        called.emit1(
            StmtKind::HostCallback {
                func,
                signature,
                args: CallArgs { index: self.calls.len() as u64 },
            },
        )
    }

    /// `other` is this IR with more in it: whatever stood here still stands
    /// there, at the same place.
    pub open spec fn grows_to(self, other: IrView) -> bool {
        &&& self.types.is_prefix_of(other.types)
        &&& forall|i: int|
            0 <= i < self.types.len() ==> #[trigger] other.types[i] == self.types[i]
        &&& self.stmts.is_prefix_of(other.stmts)
        &&& self.calls.is_prefix_of(other.calls)
        &&& self.slots.is_prefix_of(other.slots)
        &&& self.blocks.len() <= other.blocks.len()
        &&& self.halt_check_every == other.halt_check_every
        &&& other.leave_and_take_halt == self.leave_and_take_halt || (self.leave_and_take_halt is None
            && other.leave_and_take_halt->0.index >= self.blocks.len())
    }
}

/// Statement `i` of block `b` binds `x`.
pub open spec fn binds(ir: IrView, b: int, i: int, x: u64) -> bool {
    &&& 0 <= b < ir.blocks.len()
    &&& 0 <= i < ir.blocks[b].stmts.len()
    &&& ir.stmts[ir.blocks[b].stmts[i].index as int].outputs.contains(x)
}

/// Parameter `i` of block `b` is `x`.
pub open spec fn passes(ir: IrView, b: int, i: int, x: u64) -> bool {
    &&& 0 <= b < ir.blocks.len()
    &&& 0 <= i < ir.blocks[b].parameters.len()
    &&& ir.blocks[b].parameters[i] == x
}

/// Every value is bound in one place: by a statement or as a parameter.
pub open spec fn single_assignment(ir: IrView) -> bool {
    &&& forall|b: int, i: int, d: int, j: int, x: u64|
        #[trigger] binds(ir, b, i, x) && #[trigger] binds(ir, d, j, x) ==> b == d && i == j
    &&& forall|b: int, i: int, d: int, j: int, x: u64|
        #[trigger] passes(ir, b, i, x) && #[trigger] passes(ir, d, j, x) ==> b == d && i == j
    &&& forall|b: int, i: int, d: int, j: int, x: u64|
        !(#[trigger] binds(ir, b, i, x) && #[trigger] passes(ir, d, j, x))
}

/// The blocks that stood before bind what they bound, and new blocks bind
/// nothing.
pub proof fn lemma_places_kept(v: IrView, w: IrView)
    requires
        v.bound_once(),
        w.stmts == v.stmts,
        0 < v.blocks.len() <= w.blocks.len(),
        forall|b: int|
            0 <= b < v.blocks.len() ==> (#[trigger] w.blocks[b]).stmts == v.blocks[b].stmts
                && w.blocks[b].parameters == v.blocks[b].parameters,
        forall|b: int|
            v.blocks.len() <= b < w.blocks.len() ==> (#[trigger] w.blocks[b]).stmts.len() == 0
                && w.blocks[b].parameters.len() == 0,
    ensures
        w.bound_once(),
{
    reveal(IrView::bound_once);
    assert forall|b: int, i: int, x: u64| #[trigger] binds(w, b, i, x) implies binds(
        v,
        b,
        i,
        x,
    ) by {
        assert(w.blocks[b].stmts.len() > 0);
    }
    assert forall|b: int, i: int, x: u64| #[trigger] passes(w, b, i, x) implies passes(
        v,
        b,
        i,
        x,
    ) by {
        assert(w.blocks[b].parameters.len() > 0);
    }
    lemma_single_from(v, w);
    assert(w.blocks[0].parameters == v.blocks[0].parameters);
}

/// An IR whose values are bound where another one binds them.
proof fn lemma_single_from(v: IrView, w: IrView)
    requires
        single_assignment(v),
        forall|b: int, i: int, x: u64| #[trigger] binds(w, b, i, x) ==> binds(v, b, i, x),
        forall|b: int, i: int, x: u64| #[trigger] passes(w, b, i, x) ==> passes(v, b, i, x),
    ensures
        single_assignment(w),
{
    assert forall|b: int, i: int, d: int, j: int, x: u64| #[trigger]
        binds(w, b, i, x) && #[trigger] binds(w, d, j, x) implies b == d && i == j by {
        assert(binds(v, b, i, x) && binds(v, d, j, x));
    }
    assert forall|b: int, i: int, d: int, j: int, x: u64| #[trigger]
        passes(w, b, i, x) && #[trigger] passes(w, d, j, x) implies b == d && i == j by {
        assert(passes(v, b, i, x) && passes(v, d, j, x));
    }
    assert forall|b: int, i: int, d: int, j: int, x: u64|
        !(#[trigger] binds(w, b, i, x) && #[trigger] passes(w, d, j, x)) by {
        if binds(w, b, i, x) && passes(w, d, j, x) {
            assert(binds(v, b, i, x) && passes(v, d, j, x));
        }
    }
}

/// What is bound anywhere is a value of the function.
proof fn lemma_bound_below(v: IrView)
    requires
        forall|b: int| 0 <= b < v.blocks.len() ==> v.block_ok(#[trigger] v.blocks[b]),
        forall|s: int| 0 <= s < v.stmts.len() ==> v.stmt_ok(#[trigger] v.stmts[s]),
    ensures
        forall|b: int, i: int, x: u64| #[trigger] binds(v, b, i, x) ==> x < v.types.len(),
        forall|b: int, i: int, x: u64| #[trigger] passes(v, b, i, x) ==> x < v.types.len(),
{
    assert forall|b: int, i: int, x: u64| #[trigger] binds(v, b, i, x) implies x
        < v.types.len() by {
        assert(v.block_ok(v.blocks[b]));
        let s = v.blocks[b].stmts[i].index as int;
        assert(v.stmt_ok(v.stmts[s]));
        let k = v.stmts[s].outputs.index_of(x);
        assert(v.stmts[s].outputs[k] == x);
    }
    assert forall|b: int, i: int, x: u64| #[trigger] passes(v, b, i, x) implies x
        < v.types.len() by {
        assert(v.block_ok(v.blocks[b]));
    }
}

/// A new statement binds new values.
proof fn lemma_emit_once(v: IrView, rvalue: StmtKind)
    requires
        v.wf(),
        v.types.len() + v.output_types(rvalue).len() <= u64::MAX,
        v.stmts.len() < u64::MAX,
    ensures
        v.emit(rvalue).bound_once(),
{
    reveal(IrView::wf);
    reveal(IrView::emit);
    reveal(IrView::bound_once);
    lemma_bound_below(v);
    let w = v.emit(rvalue);
    let at = v.current.index as int;
    let place = v.blocks[at].stmts.len() as int;
    assert forall|b: int, i: int, x: u64| #[trigger] binds(w, b, i, x) implies (binds(v, b, i, x)
        && x < v.types.len()) || (b == at && i == place && x >= v.types.len()) by {
        if b == at && i == place {
            let s = w.stmts[v.stmts.len() as int];
            let k = s.outputs.index_of(x);
            assert(s.outputs[k] == x);
        } else {
            assert(v.block_ok(v.blocks[b]));
            assert(w.blocks[b].stmts[i] == v.blocks[b].stmts[i]);
            assert(binds(v, b, i, x));
        }
    }
    assert forall|b: int, i: int, x: u64| #[trigger] passes(w, b, i, x) implies passes(v, b, i, x)
        && x < v.types.len() by {
        assert(passes(v, b, i, x));
    }
    assert forall|b: int, i: int, d: int, j: int, x: u64| #[trigger]
        binds(w, b, i, x) && #[trigger] binds(w, d, j, x) implies b == d && i == j by {}
    assert forall|b: int, i: int, d: int, j: int, x: u64|
        !(#[trigger] binds(w, b, i, x) && #[trigger] passes(w, d, j, x)) by {}
    assert(w.blocks[0].parameters == v.blocks[0].parameters);
}

/// A new parameter is a new value.
proof fn lemma_parameter_once(v: IrView, block: Block, ty: TypeFull)
    requires
        v.wf(),
        v.has_block(block),
        v.types.len() < u64::MAX,
    ensures
        v.add_parameter(block, ty).0.bound_once(),
{
    reveal(IrView::wf);
    reveal(IrView::bound_once);
    lemma_bound_below(v);
    let w = v.add_parameter(block, ty).0;
    let at = block.index as int;
    let place = v.blocks[at].parameters.len() as int;
    assert forall|b: int, i: int, x: u64| #[trigger] binds(w, b, i, x) implies binds(v, b, i, x)
        && x < v.types.len() by {
        assert(binds(v, b, i, x));
    }
    assert forall|b: int, i: int, x: u64| #[trigger] passes(w, b, i, x) implies (passes(v, b, i, x)
        && x < v.types.len()) || (b == at && i == place && x == v.types.len()) by {
        if !(b == at && i == place) {
            assert(passes(v, b, i, x));
        }
    }
    assert forall|b: int, i: int, d: int, j: int, x: u64| #[trigger]
        passes(w, b, i, x) && #[trigger] passes(w, d, j, x) implies b == d && i == j by {}
    assert forall|b: int, i: int, d: int, j: int, x: u64|
        !(#[trigger] binds(w, b, i, x) && #[trigger] passes(w, d, j, x)) by {}
    assert forall|place: int| 0 <= place < 6 implies #[trigger] w.blocks[0].parameters[place]
        == Arg::at(place).spec_value().index by {
        assert(v.blocks[0].parameters[place] == Arg::at(place).spec_value().index);
    }
}

/// The IR has grown, the block that was current may have ended, and every
/// other block is as open as it was. The block that is current now is open.
pub open spec fn moved_on(a: IrView, b: IrView) -> bool {
    &&& b.wf()
    &&& a.grows_to(b)
    &&& b.current.index < b.blocks.len()
    &&& !b.block(b.current).terminated
    &&& forall|i: int|
        0 <= i < a.blocks.len() && i != a.current.index ==> (#[trigger] b.blocks[i]).terminated
            == a.blocks[i].terminated
}

/// The IR has grown, and every block is as open as it was.
pub open spec fn same_place(a: IrView, b: IrView) -> bool {
    &&& b.wf()
    &&& a.grows_to(b)
    &&& b.current == a.current
    &&& forall|i: int|
        0 <= i < a.blocks.len() ==> (#[trigger] b.blocks[i]).terminated == a.blocks[i].terminated
}

/// A typed statement stays typed when the IR grows.
pub proof fn lemma_typed_grows(a: IrView, b: IrView, rvalue: StmtKind)
    requires
        a.grows_to(b),
        a.typed(rvalue),
    ensures
        b.typed(rvalue),
        b.output_types(rvalue) == a.output_types(rvalue),
{
}

pub proof fn lemma_block_grows(a: IrView, b: IrView, block: BlockView)
    requires
        a.grows_to(b),
        a.block_ok(block),
    ensures
        b.block_ok(block),
{
}

/// What appending a statement keeps and adds.
pub proof fn lemma_emit(v: IrView, rvalue: StmtKind)
    requires
        v.wf(),
        v.typed(rvalue),
        v.types.len() + v.output_types(rvalue).len() <= u64::MAX,
        v.stmts.len() < u64::MAX,
    ensures
        v.emit(rvalue).wf(),
        v.grows_to(v.emit(rvalue)),
        v.emit(rvalue).types == v.types + v.output_types(rvalue),
        v.emit(rvalue).blocks.len() == v.blocks.len(),
        v.emit(rvalue).current == v.current,
        v.emit(rvalue).scratch_space == v.scratch_space,
        v.emit(rvalue).leave_and_take_halt == v.leave_and_take_halt,
        forall|b: int|
            0 <= b < v.blocks.len() ==> (#[trigger] v.emit(rvalue).blocks[b]).terminated
                == v.blocks[b].terminated,
{
    lemma_emit_once(v, rvalue);
    reveal(IrView::wf);
    reveal(IrView::emit);
    let w = v.emit(rvalue);
    assert(v.grows_to(w));
    assert forall|s: int| 0 <= s < w.stmts.len() implies w.stmt_ok(#[trigger] w.stmts[s]) by {
        lemma_typed_grows(v, w, w.stmts[s].rvalue);
        if s < v.stmts.len() {
            assert(v.stmt_ok(v.stmts[s]));
        }
    }
    assert forall|b: int| 0 <= b < w.blocks.len() implies w.block_ok(#[trigger] w.blocks[b]) by {
        assert(v.block_ok(v.blocks[b]));
        lemma_block_grows(v, w, v.blocks[b]);
    }
}

/// A change of blocks that leaves every block in order leaves the IR in
/// order.
pub proof fn lemma_blocks_changed(v: IrView, w: IrView)
    requires
        v.wf(),
        w == (IrView { types: w.types, blocks: w.blocks, ..v }),
        v.types.is_prefix_of(w.types),
        w.types.len() <= u64::MAX,
        v.blocks.len() <= w.blocks.len() <= u64::MAX,
        forall|b: int| 0 <= b < w.blocks.len() ==> w.block_ok(#[trigger] w.blocks[b]),
        v.leave_and_take_halt matches Some(block) ==> w.block(block) == v.block(block),
        w.bound_once(),
    ensures
        w.wf(),
        v.grows_to(w),
{
    reveal(IrView::wf);
    assert(v.grows_to(w));
    assert forall|s: int| 0 <= s < w.stmts.len() implies w.stmt_ok(#[trigger] w.stmts[s]) by {
        assert(v.stmt_ok(v.stmts[s]));
        lemma_typed_grows(v, w, w.stmts[s].rvalue);
    }
}

pub proof fn lemma_create_block(v: IrView)
    requires
        v.wf(),
        v.blocks.len() < u64::MAX,
    ensures
        v.create_block().0.wf(),
        v.grows_to(v.create_block().0),
{
    reveal(IrView::wf);
    let w = v.create_block().0;
    assert(v.grows_to(w));
    assert forall|b: int| 0 <= b < w.blocks.len() implies w.block_ok(#[trigger] w.blocks[b]) by {
        if b < v.blocks.len() {
            assert(v.block_ok(v.blocks[b]));
            lemma_block_grows(v, w, v.blocks[b]);
        }
    }
    lemma_places_kept(v, w);
    lemma_blocks_changed(v, w);
}

pub proof fn lemma_mark_cold(v: IrView, block: Block)
    requires
        v.wf(),
        v.has_block(block),
    ensures
        v.mark_cold(block).wf(),
        v.grows_to(v.mark_cold(block)),
{
    reveal(IrView::wf);
    let w = v.mark_cold(block);
    if block != Block::entrypoint() {
        assert forall|b: int| 0 <= b < w.blocks.len() implies w.block_ok(#[trigger] w.blocks[b]) by {
            assert(v.block_ok(v.blocks[b]));
        }
        lemma_places_kept(v, w);
        lemma_blocks_changed(v, w);
    }
}

pub proof fn lemma_terminate(v: IrView, block: Block, terminator: TerminatorView)
    requires
        v.wf(),
        v.may_change(block),
        v.terminator_ok(terminator),
    ensures
        v.terminate(block, terminator).wf(),
        v.grows_to(v.terminate(block, terminator)),
{
    reveal(IrView::wf);
    let w = v.terminate(block, terminator);
    assert forall|b: int| 0 <= b < w.blocks.len() implies w.block_ok(#[trigger] w.blocks[b]) by {
        assert(v.block_ok(v.blocks[b]));
    }
    lemma_places_kept(v, w);
    lemma_blocks_changed(v, w);
}

pub proof fn lemma_add_parameter(v: IrView, block: Block, ty: TypeFull)
    requires
        v.wf(),
        v.may_change(block),
        v.types.len() < u64::MAX,
    ensures
        v.add_parameter(block, ty).0.wf(),
        v.grows_to(v.add_parameter(block, ty).0),
{
    reveal(IrView::wf);
    let w = v.add_parameter(block, ty).0;
    assert(v.grows_to(w));
    assert forall|b: int| 0 <= b < w.blocks.len() implies w.block_ok(#[trigger] w.blocks[b]) by {
        assert(v.block_ok(v.blocks[b]));
        lemma_block_grows(v, w, v.blocks[b]);
    }
    lemma_parameter_once(v, block, ty);
    lemma_blocks_changed(v, w);
}

/// New stack space, or the arguments of a new host call.
pub proof fn lemma_tables_grow(v: IrView, w: IrView)
    requires
        v.wf(),
        w == (IrView {
            calls: w.calls,
            slots: w.slots,
            scratch_space: w.scratch_space,
            ..v
        }),
        v.calls.is_prefix_of(w.calls),
        v.slots.is_prefix_of(w.slots),
        w.calls.len() <= u64::MAX,
        w.slots.len() <= u64::MAX,
        w.scratch_space matches Some(slot) ==> slot.index < w.slots.len(),
    ensures
        w.wf(),
        v.grows_to(w),
{
    reveal(IrView::wf);
    lemma_places_kept(v, w);
    assert(v.grows_to(w));
    assert forall|s: int| 0 <= s < w.stmts.len() implies w.stmt_ok(#[trigger] w.stmts[s]) by {
        assert(v.stmt_ok(v.stmts[s]));
        lemma_typed_grows(v, w, w.stmts[s].rvalue);
    }
    assert forall|b: int| 0 <= b < w.blocks.len() implies w.block_ok(#[trigger] w.blocks[b]) by {
        assert(v.block_ok(v.blocks[b]));
    }
}

/// The choice of the block that takes the halt reason.
pub proof fn lemma_leave_chosen(v: IrView, w: IrView)
    requires
        v.wf(),
        w == (IrView { leave_and_take_halt: w.leave_and_take_halt, ..v }),
        w.leave_and_take_halt matches Some(block) && w.leaves(block) && block != w.current,
    ensures
        w.wf(),
{
    reveal(IrView::wf);
    lemma_places_kept(v, w);
    assert forall|s: int| 0 <= s < w.stmts.len() implies w.stmt_ok(#[trigger] w.stmts[s]) by {
        assert(v.stmt_ok(v.stmts[s]));
    }
    assert forall|b: int| 0 <= b < w.blocks.len() implies w.block_ok(#[trigger] w.blocks[b]) by {
        assert(v.block_ok(v.blocks[b]));
    }
}

/// What well-formedness says of the arguments and of the places that the
/// builder remembers.
pub proof fn lemma_wf(v: IrView)
    requires
        v.wf(),
    ensures
        6 <= v.types.len() <= u64::MAX,
        forall|arg: Arg| v.ty(#[trigger] arg.spec_value()) == arg.spec_ty(),
        v.stmts.len() <= u64::MAX,
        v.blocks.len() <= u64::MAX,
        v.current.index < v.blocks.len(),
        v.scratch_space matches Some(slot) ==> slot.index < v.slots.len(),
        v.leave_and_take_halt matches Some(block) ==> v.leaves(block),
        v.may_change(v.current),
        v.halt_check_every > 0,
        v.bound_once(),
{
    reveal(IrView::wf);
}

/// What well-formedness says of a block.
pub proof fn lemma_wf_block(v: IrView, block: Block)
    requires
        v.wf(),
        v.has_block(block),
    ensures
        v.block_ok(v.block(block)),
{
    reveal(IrView::wf);
}

/// What well-formedness says of a statement.
pub proof fn lemma_wf_stmt(v: IrView, s: int)
    requires
        v.wf(),
        0 <= s < v.stmts.len(),
    ensures
        v.stmt_ok(v.stmts[s]),
{
    reveal(IrView::wf);
}

/// The choice of another current block.
pub proof fn lemma_at(v: IrView, block: Block)
    requires
        v.wf(),
        v.may_change(block),
    ensures
        v.at(block).wf(),
{
    reveal(IrView::wf);
    let w = v.at(block);
    lemma_places_kept(v, w);
    assert(v.grows_to(w));
    assert forall|s: int| 0 <= s < w.stmts.len() implies w.stmt_ok(#[trigger] w.stmts[s]) by {
        assert(v.stmt_ok(v.stmts[s]));
        lemma_typed_grows(v, w, w.stmts[s].rvalue);
    }
    assert forall|b: int| 0 <= b < w.blocks.len() implies w.block_ok(#[trigger] w.blocks[b]) by {
        assert(v.block_ok(v.blocks[b]));
        lemma_block_grows(v, w, v.blocks[b]);
    }
    assert(v.leave_and_take_halt matches Some(leave) ==> w.leaves(leave));
}

} // verus!
