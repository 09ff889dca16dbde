//! The lowering of one function, block by block in compile order.
use vstd::prelude::*;
use arrayvec::ArrayVec;
use crate::inline_list::{pair_as_slice, pair_items, pair_new, pair_push, InlineList};
use crate::ir::layout::PAGE_DIRTY_FLAG;
use crate::ir::model::{lemma_wf, lemma_wf_block, lemma_wf_stmt, IrView};
use crate::ir::order_laws::{law_order_is_complete, lemma_order_closed};
use crate::ir::types::{
    ARG_COUNT, AliasRegion, Arg, Block, IntCmp, IntWidth, LoadType, SSAValue, ShiftOp, StackSlotData,
    Stmt, StmtKind, Terminator, TerminatorView, TypeFull,
};
use crate::ir::ExecIr;
use crate::lowering::{
    arith_op, bitwise_op, clif_int_ty, guest_flags, host_flags, ir_ty_to_clif_ty, lowered,
    lowered_slot, operands, shift_op, spec_clif_ty, spec_log2, ClifBinary, ClifBlock, ClifBlockView,
    ClifFunction, ClifInst, ClifList, ClifMemFlags, ClifOp, ClifRmw, ClifSlot, ClifTy, ClifUnary,
    LowerView, LoweringError,
};

verus! {

/// A function that is being lowered.
pub struct FunctionLowering<'a> {
    pub exec_ir: &'a ExecIr,
    pub func: ClifFunction,
    pub values: Vec<Option<u64>>,
    pub blocks: Vec<Option<u64>>,
    pub current: usize,
    pub ptr_ty: ClifTy,
}

impl<'a> View for FunctionLowering<'a> {
    type V = LowerView;

    open spec fn view(&self) -> LowerView {
        LowerView {
            types: self.func.types@,
            blocks: self.func.blocks@.map_values(|block: ClifBlock| block@),
            lists: self.func.lists@.map_values(|list: InlineList| list@),
            slots: self.func.slots@,
            values: self.values@,
            block_of: self.blocks@,
            current: self.current as nat,
            ptr_ty: self.ptr_ty,
        }
    }
}

/// The lowered function has grown, and nothing that it held has changed but
/// what is appended to the current block.
pub open spec fn appended(ir: IrView, a: LowerView, b: LowerView) -> bool {
    &&& b.wf(ir)
    &&& a.types.is_prefix_of(b.types)
    &&& forall|i: int| 0 <= i < a.types.len() ==> #[trigger] b.types[i] == a.types[i]
    &&& b.blocks.len() == a.blocks.len()
    &&& b.values == a.values
    &&& b.block_of == a.block_of
    &&& b.slots == a.slots
    &&& b.current == a.current
    &&& b.ptr_ty == a.ptr_ty
}

impl<'a> FunctionLowering<'a> {
    pub open spec fn wf(self) -> bool {
        self.exec_ir@.wf() && self@.wf(self.exec_ir@)
    }

    /// Appends an instruction without a result.
    fn ins0(&mut self, op: ClifOp)
        requires
            old(self).wf(),
        ensures
            final(self).wf(),
            final(self).exec_ir == old(self).exec_ir,
            appended(old(self).exec_ir@, old(self)@, final(self)@),
            final(self)@ == old(self)@.ins(op, Seq::empty()),
    {
        let ghost v = self@;
        assert(self.func.types.len() == v.types.len());
        assert(self.func.blocks@[self.current as int]@ == v.blocks[v.current as int]);
        let inst = ClifInst { op, result: self.func.types.len() as u64 };
        self.func.blocks[self.current].insts.push(inst);
        proof {
            assert(v.types + Seq::<ClifTy>::empty() =~= v.types);
            assert(self@.blocks =~= v.ins(op, Seq::empty()).blocks);
            assert(self@ =~= v.ins(op, Seq::empty()));
        }
    }

    /// Appends an instruction with one result.
    fn ins1(&mut self, op: ClifOp, ty: ClifTy) -> (r: u64)
        requires
            old(self).wf(),
        ensures
            final(self).wf(),
            final(self).exec_ir == old(self).exec_ir,
            appended(old(self).exec_ir@, old(self)@, final(self)@),
            (final(self)@, r) == old(self)@.ins1(op, ty),
            r == old(self)@.types.len(),
            final(self)@.types == old(self)@.types.push(ty),
            final(self)@.lists == old(self)@.lists,
    {
        let ghost v = self@;
        assert(self.func.types.len() == v.types.len());
        assert(self.func.blocks@[self.current as int]@ == v.blocks[v.current as int]);
        let result: u64 = self.func.types.len() as u64;
        self.func.types.push(ty);
        self.func.blocks[self.current].insts.push(ClifInst { op, result });
        proof {
            assert(self.func.types.len() == v.types.len() + 1);
            assert(v.types + seq![ty] =~= v.types.push(ty));
            assert(self@.blocks =~= v.ins(op, seq![ty]).blocks);
            assert(self@ =~= v.ins(op, seq![ty]));
        }
        result
    }

    /// Appends an instruction with two results.
    fn ins2(&mut self, op: ClifOp, first: ClifTy, second: ClifTy) -> (r: (u64, u64))
        requires
            old(self).wf(),
        ensures
            final(self).wf(),
            final(self).exec_ir == old(self).exec_ir,
            appended(old(self).exec_ir@, old(self)@, final(self)@),
            final(self)@ == old(self)@.ins(op, seq![first, second]),
            r.0 == old(self)@.types.len(),
            r.1 == old(self)@.types.len() + 1,
            final(self)@.types == old(self)@.types.push(first).push(second),
    {
        let ghost v = self@;
        assert(self.func.types.len() == v.types.len());
        assert(self.func.blocks@[self.current as int]@ == v.blocks[v.current as int]);
        let result: u64 = self.func.types.len() as u64;
        self.func.types.push(first);
        let next: u64 = self.func.types.len() as u64;
        self.func.types.push(second);
        self.func.blocks[self.current].insts.push(ClifInst { op, result });
        proof {
            assert(self.func.types.len() == v.types.len() + 2);
            assert(v.types + seq![first, second] =~= v.types.push(first).push(second));
            assert(self@.blocks =~= v.ins(op, seq![first, second]).blocks);
            assert(self@ =~= v.ins(op, seq![first, second]));
        }
        (result, next)
    }

    /// Keeps a list of values.
    fn keep_list(&mut self, items: InlineList) -> (r: ClifList)
        requires
            old(self).wf(),
        ensures
            final(self).wf(),
            final(self).exec_ir == old(self).exec_ir,
            appended(old(self).exec_ir@, old(self)@, final(self)@),
            (final(self)@, r) == old(self)@.list(items@),
            final(self)@.types == old(self)@.types,
    {
        let ghost v = self@;
        let index: u64 = self.func.lists.len() as u64;
        self.func.lists.push(items);
        proof {
            assert(self.func.lists.len() == v.lists.len() + 1);
            assert(self@.lists =~= v.lists.push(items@));
            assert(self@ =~= v.list(items@).0);
        }
        ClifList { index }
    }

    /// The lowered value of an IR value.
    fn use_value(&self, ssa_value: SSAValue) -> (r: u64)
        requires
            self.wf(),
            self@.ready(ssa_value.index),
        ensures
            r == self@.val(ssa_value),
            r < self@.types.len(),
    {
        assert(self.values.len() == self@.values.len());
        assert(self@.values[ssa_value.index as int] is Some);
        match self.values[ssa_value.index as usize] {
            Some(value) => value,
            None => 0,
        }
    }

    /// The type of a lowered value.
    fn value_type(&self, value: u64) -> (r: ClifTy)
        requires
            value < self@.types.len(),
        ensures
            r == self@.types[value as int],
    {
        assert(self.func.types.len() == self@.types.len());
        self.func.types[value as usize]
    }

    /// The type of an IR value.
    fn ir_type(&self, value: SSAValue) -> (r: TypeFull)
        requires
            self.exec_ir@.has(value),
        ensures
            r == self.exec_ir@.ty(value),
    {
        assert(self.exec_ir.body.ssa_values.len() == self.exec_ir@.types.len());
        self.exec_ir.body.ssa_values[value.index as usize]
    }

    /// Whether every value of a list has been lowered; if so, their lowered
    /// values.
    fn use_values(&self, values: &[u64]) -> (r: Option<InlineList>)
        requires
            self.wf(),
        ensures
            r is Some <==> self@.all_ready(values@),
            r matches Some(list) ==> list@ == self@.vals(values@),
    {
        let mut list = InlineList::new();
        let mut i: usize = 0;
        while i < values.len()
            invariant
                self.wf(),
                i <= values.len(),
                self@.all_ready(values@.take(i as int)),
                list@ == self@.vals(values@.take(i as int)),
            decreases values.len() - i,
        {
            assert(self.values.len() == self@.values.len());
            let value: u64 = values[i];
            if value >= self.values.len() as u64 {
                assert(!self@.ready(values@[i as int]));
                return None;
            }
            match self.values[value as usize] {
                Some(lowered) => {
                    list.push(lowered);
                },
                None => {
                    assert(!self@.ready(values@[i as int]));
                    return None;
                },
            }
            i = i + 1;
            proof {
                let now = values@.take(i as int);
                assert(now =~= values@.take(i as int - 1).push(value));
                assert(self@.ready(value));
                assert(list@ =~= self@.vals(now));
                assert forall|k: int| 0 <= k < now.len() implies self@.ready(#[trigger] now[k]) by {
                    if k < i - 1 {
                        assert(values@.take(i as int - 1)[k] == now[k]);
                    }
                }
            }
        }
        assert(values@.take(i as int) =~= values@);
        Some(list)
    }

    /// The values that a statement reads.
    fn operand_list(&self, rvalue: &StmtKind) -> (r: Vec<u64>)
        requires
            self.exec_ir@.typed(*rvalue),
        ensures
            r@ == operands(self.exec_ir@, *rvalue),
    {
        let ghost ir = self.exec_ir@;
        let r: Vec<u64> = match *rvalue {
            StmtKind::IConst(_) => vec![],
            StmtKind::ArithBinOp { op: _, lhs, rhs } => vec![lhs.index, rhs.index],
            StmtKind::IntNeg(value) => vec![value.index],
            StmtKind::OverflowingBinOp { op: _, lhs, rhs } => vec![lhs.index, rhs.index],
            StmtKind::IntCmp { predicate: _, lhs, rhs } => vec![lhs.index, rhs.index],
            StmtKind::IntCmpImm { predicate: _, lhs, rhs: _ } => vec![lhs.index],
            StmtKind::Select { cond, if_true, if_false } => vec![
                cond.index,
                if_true.index,
                if_false.index,
            ],
            StmtKind::Bitwise { op: _, lhs, rhs } => vec![lhs.index, rhs.index],
            StmtKind::BitwiseImm { op: _, lhs, rhs: _ } => vec![lhs.index],
            StmtKind::BitNot(value) => vec![value.index],
            StmtKind::Shift { op: _, value, shift } => vec![value.index, shift.index],
            StmtKind::ShiftUnbounded { op: _, value, shift } => vec![value.index, shift.index],
            StmtKind::ShiftImm { op: _, value, shift: _ } => vec![value.index],
            StmtKind::LoadHost { ty: _, base_ptr, offset: _, can_move: _ } => vec![base_ptr.index],
            StmtKind::StoreHost { base_ptr, offset: _, value, can_move: _ } => vec![
                base_ptr.index,
                value.index,
            ],
            StmtKind::LoadStackPtr { .. } => vec![],
            StmtKind::PtrAdd { base_ptr, offset, elem_size: _ } => vec![
                base_ptr.index,
                offset.index,
            ],
            StmtKind::PtrEq(a, b) => vec![a.index, b.index],
            StmtKind::HasTag { ptr, tag_bits: _ } => vec![ptr.index],
            StmtKind::Untag { ptr, tag_bits: _ } => vec![ptr.index],
            StmtKind::HostCallback { func: _, signature: _, args } => {
                assert(self.exec_ir.body.calls.len() == ir.calls.len());
                assert(ir.calls[args.index as int] == self.exec_ir.body.calls@[args.index as int]@);
                let items = self.exec_ir.body.calls[args.index as usize].as_slice();
                let mut list: Vec<u64> = Vec::new();
                let mut i: usize = 0;
                while i < items.len()
                    invariant
                        i <= items.len(),
                        list@ == items@.take(i as int),
                    decreases items.len() - i,
                {
                    list.push(items[i]);
                    i = i + 1;
                    assert(list@ =~= items@.take(i as int));
                }
                assert(list@ =~= items@);
                list
            },
            StmtKind::VMLoadRaw { aligned_page_ptr, page_offset, width: _, seq_cst: _ } => vec![
                aligned_page_ptr.index,
                page_offset.index,
            ],
            StmtKind::VMStoreRaw { aligned_page_ptr, page_offset, value, seq_cst: _ } => vec![
                aligned_page_ptr.index,
                page_offset.index,
                value.index,
            ],
            StmtKind::LoadHaltReason => vec![Arg::HaltReasonPtr.as_ssa_value().index],
            StmtKind::TakeHaltReason => vec![Arg::HaltReasonPtr.as_ssa_value().index],
            StmtKind::SetPageDirtyFlag(ptr) => vec![ptr.index],
            StmtKind::Safepoint => vec![],
        };
        assert(r@ =~= operands(ir, *rvalue));
        r
    }

    fn host_memory_flags(&self, can_move: bool, region: AliasRegion) -> (r: ClifMemFlags)
        ensures
            r == host_flags(can_move, region),
    {
        let readonly: bool = match region {
            AliasRegion::ReadOnly => true,
            _ => false,
        };
        ClifMemFlags { region, can_move, readonly, little_endian: false }
    }

    fn guest_memory_flags(&self) -> (r: ClifMemFlags)
        ensures
            r == guest_flags(),
    {
        ClifMemFlags {
            region: AliasRegion::VirtualMemory,
            can_move: false,
            readonly: false,
            little_endian: true,
        }
    }

    /// Adds an offset, counted in elements, to a pointer.
    fn ptr_add(&mut self, base_ptr: SSAValue, offset: SSAValue, elem_size: usize) -> (r: u64)
        requires
            old(self).wf(),
            old(self)@.ready(base_ptr.index),
            old(self)@.ready(offset.index),
        ensures
            final(self).wf(),
            final(self).exec_ir == old(self).exec_ir,
            appended(old(self).exec_ir@, old(self)@, final(self)@),
            (final(self)@, r) == old(self)@.ptr_add(base_ptr, offset, elem_size),
            r < final(self)@.types.len(),
            final(self)@.types[r as int] == old(self)@.ptr_ty,
    {
        let base: u64 = self.use_value(base_ptr);
        let offset: u64 = self.use_value(offset);
        let bits: u32 = self.value_type(offset).bits();
        let ptr_ty = self.ptr_ty;
        let wide: u64 = if bits < ptr_ty.bits() {
            self.ins1(ClifOp::Uextend { ty: ptr_ty, value: offset }, ptr_ty)
        } else if bits == ptr_ty.bits() {
            offset
        } else {
            self.ins1(ClifOp::Ireduce { ty: ptr_ty, value: offset }, ptr_ty)
        };
        let scaled: u64 = if elem_size == 1 {
            wide
        } else {
            self.ins1(
                ClifOp::BinaryImm { op: ClifBinary::Imul, lhs: wide, imm: elem_size as u64 },
                ptr_ty,
            )
        };
        self.ins1(ClifOp::Binary { op: ClifBinary::Iadd, lhs: base, rhs: scaled }, ptr_ty)
    }

    /// A shift by an amount that may be as large as the width or larger.
    fn lower_shift_unbounded(&mut self, op: ShiftOp, value: SSAValue, shift: SSAValue) -> (r: u64)
        requires
            old(self).wf(),
            old(self)@.ready(value.index),
            old(self)@.ready(shift.index),
        ensures
            final(self).wf(),
            final(self).exec_ir == old(self).exec_ir,
            appended(old(self).exec_ir@, old(self)@, final(self)@),
            (final(self)@, r) == old(self)@.shift_unbounded(op, value, shift),
            r < final(self)@.types.len(),
            final(self)@.types[r as int] == old(self)@.ty(value),
    {
        let x: u64 = self.use_value(value);
        let s: u64 = self.use_value(shift);
        let ty: ClifTy = self.value_type(x);
        let bits: u64 = ty.bits() as u64;
        let in_range: u64 = self.ins1(
            ClifOp::CompareImm { predicate: IntCmp::UnsignedLessThan, lhs: s, imm: bits },
            ClifTy::I8,
        );
        let shifted: u64 = self.ins1(ClifOp::Binary { op: shift_op(op), lhs: x, rhs: s }, ty);
        let beyond: u64 = match op {
            ShiftOp::SignExtendShr => self.ins1(
                ClifOp::BinaryImm { op: ClifBinary::Sshr, lhs: x, imm: bits - 1 },
                ty,
            ),
            _ => self.ins1(ClifOp::Iconst { ty, bits: 0 }, ty),
        };
        self.ins1(ClifOp::Select { cond: in_range, if_true: shifted, if_false: beyond }, ty)
    }
}

/// The values of outputs have the types that the outputs ask for.
pub open spec fn results_fit(v: LowerView, vals: Seq<u64>, types: Seq<TypeFull>) -> bool {
    &&& vals.len() == types.len()
    &&& forall|i: int|
        0 <= i < vals.len() ==> (#[trigger] vals[i]) < v.types.len() && (types[i] is Bool
            || v.types[vals[i] as int] == spec_clif_ty(v.ptr_ty, types[i]))
}

fn no_value() -> (r: ArrayVec<u64, 2>)
    ensures
        pair_items(r) == Seq::<u64>::empty(),
{
    pair_new()
}

fn one_value(value: u64) -> (r: ArrayVec<u64, 2>)
    ensures
        pair_items(r) == seq![value],
{
    let mut r: ArrayVec<u64, 2> = pair_new();
    pair_push(&mut r, value);
    assert(pair_items(r) =~= seq![value]);
    r
}

/// A value that is no boolean has been lowered with its type.
proof fn lemma_value_type(ir: IrView, v: LowerView, value: SSAValue)
    requires
        v.wf(ir),
        v.ready(value.index),
    ensures
        v.val(value) < v.types.len(),
        ir.ty(value) is Bool || v.ty(value) == spec_clif_ty(v.ptr_ty, ir.ty(value)),
{
    assert(v.values[value.index as int] is Some);
}

/// What lowering a statement does and gives.
pub open spec fn lowers(
    ir: IrView,
    a: LowerView,
    b: LowerView,
    rvalue: StmtKind,
    r: Result<ArrayVec<u64, 2>, LoweringError>,
) -> bool {
    match r {
        Ok(vals) => {
            &&& a.refuses(ir, rvalue) is None
            &&& (b, pair_items(vals)) == a.lower(ir, rvalue)
            &&& appended(ir, a, b)
            &&& results_fit(b, pair_items(vals), ir.output_types(rvalue))
        },
        Err(error) => a.refuses(ir, rvalue) == Some(error),
    }
}

/// The operands of a statement have been lowered, with their types.
spec fn operands_ready(ir: IrView, v: LowerView, rvalue: StmtKind) -> bool {
    let ops = operands(ir, rvalue);
    &&& v.all_ready(ops)
    &&& ops.len() > 0 ==> v.ready(ops[0])
    &&& ops.len() > 1 ==> v.ready(ops[1])
    &&& ops.len() > 2 ==> v.ready(ops[2])
    &&& forall|i: int|
        0 <= i < ops.len() ==> v.val(SSAValue { index: #[trigger] ops[i] }) < v.types.len() && (
        ir.types[ops[i] as int] is Bool || v.ty(SSAValue { index: ops[i] }) == spec_clif_ty(
            v.ptr_ty,
            ir.types[ops[i] as int],
        ))
}

impl<'a> FunctionLowering<'a> {
    /// Lowers a constant or integer arithmetic.
    #[verifier::spinoff_prover]
    #[verifier::rlimit(100)]
    fn lower_arith(&mut self, rvalue: &StmtKind) -> (r: Result<ArrayVec<u64, 2>, LoweringError>)
        requires
            old(self).wf(),
            old(self).exec_ir@.typed(*rvalue),
            operands_ready(old(self).exec_ir@, old(self)@, *rvalue),
            rvalue is IConst || rvalue is ArithBinOp || rvalue is IntNeg
                || rvalue is OverflowingBinOp,
        ensures
            final(self).exec_ir == old(self).exec_ir,
            r is Ok ==> final(self).wf(),
            lowers(old(self).exec_ir@, old(self)@, final(self)@, *rvalue, r),
    {
        let ghost ops = operands(self.exec_ir@, *rvalue);
        assert(ops.len() > 0 ==> self@.val(SSAValue { index: ops[0] }) < self@.types.len());
        assert(ops.len() > 1 ==> self@.val(SSAValue { index: ops[1] }) < self@.types.len());
        assert(ops.len() > 2 ==> self@.val(SSAValue { index: ops[2] }) < self@.types.len());
        let value: u64 = match *rvalue {
            StmtKind::IConst(constant) => {
                let ty = clif_int_ty(constant.width());
                self.ins1(ClifOp::Iconst { ty, bits: constant.bits() }, ty)
            },
            StmtKind::ArithBinOp { op, lhs, rhs } => {
                let (lhs, rhs) = (self.use_value(lhs), self.use_value(rhs));
                let ty = self.value_type(lhs);
                self.ins1(ClifOp::Binary { op: arith_op(op), lhs, rhs }, ty)
            },
            StmtKind::IntNeg(value) => {
                let value: u64 = self.use_value(value);
                let ty = self.value_type(value);
                self.ins1(ClifOp::Unary { op: ClifUnary::Ineg, value }, ty)
            },
            StmtKind::OverflowingBinOp { op, lhs, rhs } => {
                let (lhs, rhs) = (self.use_value(lhs), self.use_value(rhs));
                let ty = self.value_type(lhs);
                let (value, overflow) = self.ins2(
                    ClifOp::Overflowing { op, lhs, rhs },
                    ty,
                    ClifTy::I8,
                );
                let mut both = one_value(value);
                pair_push(&mut both, overflow);
                assert(pair_items(both) =~= seq![value, overflow]);
                return Ok(both);
            },
            _ => {
                return Ok(no_value());
            },
        };
        Ok(one_value(value))
    }

    /// Lowers a comparison, a selection or a bitwise operation.
    #[verifier::spinoff_prover]
    #[verifier::rlimit(100)]
    fn lower_logic(&mut self, rvalue: &StmtKind) -> (r: Result<ArrayVec<u64, 2>, LoweringError>)
        requires
            old(self).wf(),
            old(self).exec_ir@.typed(*rvalue),
            operands_ready(old(self).exec_ir@, old(self)@, *rvalue),
            rvalue is IntCmp || rvalue is IntCmpImm || rvalue is Select || rvalue is Bitwise
                || rvalue is BitwiseImm || rvalue is BitNot,
        ensures
            final(self).exec_ir == old(self).exec_ir,
            r is Ok ==> final(self).wf(),
            lowers(old(self).exec_ir@, old(self)@, final(self)@, *rvalue, r),
    {
        let ghost ops = operands(self.exec_ir@, *rvalue);
        assert(ops.len() > 0 ==> self@.val(SSAValue { index: ops[0] }) < self@.types.len());
        assert(ops.len() > 1 ==> self@.val(SSAValue { index: ops[1] }) < self@.types.len());
        assert(ops.len() > 2 ==> self@.val(SSAValue { index: ops[2] }) < self@.types.len());
        let value: u64 = match *rvalue {
            StmtKind::IntCmp { predicate, lhs, rhs } => {
                let (lhs, rhs) = (self.use_value(lhs), self.use_value(rhs));
                self.ins1(ClifOp::Compare { predicate, lhs, rhs }, ClifTy::I8)
            },
            StmtKind::IntCmpImm { predicate, lhs, rhs } => {
                let lhs: u64 = self.use_value(lhs);
                self.ins1(ClifOp::CompareImm { predicate, lhs, imm: rhs }, ClifTy::I8)
            },
            StmtKind::Select { cond, if_true, if_false } => {
                let cond: u64 = self.use_value(cond);
                let (if_true, if_false) = (self.use_value(if_true), self.use_value(if_false));
                let ty = self.value_type(if_true);
                self.ins1(ClifOp::Select { cond, if_true, if_false }, ty)
            },
            StmtKind::Bitwise { op, lhs, rhs } => {
                let (lhs, rhs) = (self.use_value(lhs), self.use_value(rhs));
                let ty = self.value_type(lhs);
                self.ins1(ClifOp::Binary { op: bitwise_op(op), lhs, rhs }, ty)
            },
            StmtKind::BitwiseImm { op, lhs, rhs } => {
                let lhs: u64 = self.use_value(lhs);
                let ty = self.value_type(lhs);
                self.ins1(ClifOp::BinaryImm { op: bitwise_op(op), lhs, imm: rhs }, ty)
            },
            StmtKind::BitNot(value) => {
                let negated: u64 = self.use_value(value);
                match self.ir_type(value) {
                    // a boolean is a whole byte, of which only zero is false
                    TypeFull::Bool => self.ins1(
                        ClifOp::CompareImm { predicate: IntCmp::Equal, lhs: negated, imm: 0 },
                        ClifTy::I8,
                    ),
                    _ => {
                        let ty = self.value_type(negated);
                        self.ins1(ClifOp::Unary { op: ClifUnary::Bnot, value: negated }, ty)
                    },
                }
            },
            _ => {
                return Ok(no_value());
            },
        };
        Ok(one_value(value))
    }

    /// Lowers a shift.
    #[verifier::spinoff_prover]
    #[verifier::rlimit(100)]
    fn lower_shift(&mut self, rvalue: &StmtKind) -> (r: Result<ArrayVec<u64, 2>, LoweringError>)
        requires
            old(self).wf(),
            old(self).exec_ir@.typed(*rvalue),
            operands_ready(old(self).exec_ir@, old(self)@, *rvalue),
            rvalue is Shift || rvalue is ShiftUnbounded || rvalue is ShiftImm,
        ensures
            final(self).exec_ir == old(self).exec_ir,
            r is Ok ==> final(self).wf(),
            lowers(old(self).exec_ir@, old(self)@, final(self)@, *rvalue, r),
    {
        let ghost ops = operands(self.exec_ir@, *rvalue);
        assert(ops.len() > 0 ==> self@.val(SSAValue { index: ops[0] }) < self@.types.len());
        assert(ops.len() > 1 ==> self@.val(SSAValue { index: ops[1] }) < self@.types.len());
        assert(ops.len() > 2 ==> self@.val(SSAValue { index: ops[2] }) < self@.types.len());
        let value: u64 = match *rvalue {
            StmtKind::Shift { op, value, shift } => {
                let (value, shift) = (self.use_value(value), self.use_value(shift));
                let ty = self.value_type(value);
                self.ins1(ClifOp::Binary { op: shift_op(op), lhs: value, rhs: shift }, ty)
            },
            StmtKind::ShiftUnbounded { op, value, shift } => self.lower_shift_unbounded(
                op,
                value,
                shift,
            ),
            StmtKind::ShiftImm { op, value, shift } => {
                let value: u64 = self.use_value(value);
                let ty = self.value_type(value);
                self.ins1(
                    ClifOp::BinaryImm { op: shift_op(op), lhs: value, imm: shift as u64 },
                    ty,
                )
            },
            _ => {
                return Ok(no_value());
            },
        };
        Ok(one_value(value))
    }

    /// Lowers a computation on pointers.
    #[verifier::spinoff_prover]
    #[verifier::rlimit(100)]
    fn lower_pointer(&mut self, rvalue: &StmtKind) -> (r: Result<ArrayVec<u64, 2>, LoweringError>)
        requires
            old(self).wf(),
            old(self).exec_ir@.typed(*rvalue),
            operands_ready(old(self).exec_ir@, old(self)@, *rvalue),
            rvalue is LoadStackPtr || rvalue is PtrAdd || rvalue is PtrEq || rvalue is HasTag
                || rvalue is Untag,
        ensures
            final(self).exec_ir == old(self).exec_ir,
            r is Ok ==> final(self).wf(),
            lowers(old(self).exec_ir@, old(self)@, final(self)@, *rvalue, r),
    {
        let ghost ops = operands(self.exec_ir@, *rvalue);
        assert(ops.len() > 0 ==> self@.val(SSAValue { index: ops[0] }) < self@.types.len());
        assert(ops.len() > 1 ==> self@.val(SSAValue { index: ops[1] }) < self@.types.len());
        assert(ops.len() > 2 ==> self@.val(SSAValue { index: ops[2] }) < self@.types.len());
        let value: u64 = match *rvalue {
            StmtKind::LoadStackPtr { slot } => {
                let ptr_ty = self.ptr_ty;
                self.ins1(ClifOp::StackAddr { slot: slot.index }, ptr_ty)
            },
            StmtKind::PtrAdd { base_ptr, offset, elem_size } => {
                if elem_size as u64 > 0x7fff_ffff_ffff_ffff {
                    return Err(LoweringError::ElementTooLarge);
                }
                self.ptr_add(base_ptr, offset, elem_size)
            },
            StmtKind::PtrEq(a, b) => {
                let (lhs, rhs) = (self.use_value(a), self.use_value(b));
                self.ins1(
                    ClifOp::Compare { predicate: IntCmp::Equal, lhs, rhs },
                    ClifTy::I8,
                )
            },
            StmtKind::HasTag { ptr, tag_bits } => {
                let lhs: u64 = self.use_value(ptr);
                let ty = self.value_type(lhs);
                self.ins1(
                    ClifOp::BinaryImm { op: ClifBinary::Band, lhs, imm: tag_bits as u64 },
                    ty,
                )
            },
            StmtKind::Untag { ptr, tag_bits } => {
                let lhs: u64 = self.use_value(ptr);
                let ty = self.value_type(lhs);
                let imm: u64 = u64::MAX - tag_bits as u64;
                self.ins1(ClifOp::BinaryImm { op: ClifBinary::Band, lhs, imm }, ty)
            },
            _ => {
                return Ok(no_value());
            },
        };
        Ok(one_value(value))
    }

    /// Lowers an access to host memory.
    #[verifier::spinoff_prover]
    #[verifier::rlimit(100)]
    fn lower_host_access(&mut self, rvalue: &StmtKind) -> (r: Result<ArrayVec<u64, 2>, LoweringError>)
        requires
            old(self).wf(),
            old(self).exec_ir@.typed(*rvalue),
            operands_ready(old(self).exec_ir@, old(self)@, *rvalue),
            rvalue is LoadHost || rvalue is StoreHost,
        ensures
            final(self).exec_ir == old(self).exec_ir,
            r is Ok ==> final(self).wf(),
            lowers(old(self).exec_ir@, old(self)@, final(self)@, *rvalue, r),
    {
        let ghost ops = operands(self.exec_ir@, *rvalue);
        assert(ops.len() > 0 ==> self@.val(SSAValue { index: ops[0] }) < self@.types.len());
        assert(ops.len() > 1 ==> self@.val(SSAValue { index: ops[1] }) < self@.types.len());
        assert(ops.len() > 2 ==> self@.val(SSAValue { index: ops[2] }) < self@.types.len());
        let value: u64 = match *rvalue {
            StmtKind::LoadHost { ty, base_ptr, offset, can_move } => {
                let region = match self.ir_type(base_ptr) {
                    TypeFull::HostPtr(region) => region,
                    _ => AliasRegion::ReadOnly,
                };
                let base: u64 = self.use_value(base_ptr);
                if offset > 0x7fff_ffff {
                    return Err(LoweringError::OffsetTooLarge);
                }
                let ty = match ty {
                    LoadType::Int(width) => clif_int_ty(width),
                    LoadType::HostPtr(_) => self.ptr_ty,
                };
                let flags = self.host_memory_flags(can_move, region);
                self.ins1(ClifOp::Load { ty, flags, base, offset: offset as u32 }, ty)
            },
            StmtKind::StoreHost { base_ptr, offset, value, can_move } => {
                let region = match self.ir_type(base_ptr) {
                    TypeFull::HostPtr(region) => region,
                    _ => AliasRegion::ReadOnly,
                };
                let value: u64 = self.use_value(value);
                let base: u64 = self.use_value(base_ptr);
                if offset > 0x7fff_ffff {
                    return Err(LoweringError::OffsetTooLarge);
                }
                let flags = self.host_memory_flags(can_move, region);
                self.ins0(ClifOp::Store { flags, value, base, offset: offset as u32 });
                return Ok(no_value());
            },
            _ => {
                return Ok(no_value());
            },
        };
        Ok(one_value(value))
    }

    /// Lowers a call of the host.
    #[verifier::spinoff_prover]
    #[verifier::rlimit(100)]
    fn lower_call(&mut self, lowered: InlineList, rvalue: &StmtKind) -> (r: Result<ArrayVec<u64, 2>, LoweringError>)
        requires
            old(self).wf(),
            old(self).exec_ir@.typed(*rvalue),
            operands_ready(old(self).exec_ir@, old(self)@, *rvalue),
            rvalue is HostCallback,
            lowered@ == old(self)@.vals(operands(old(self).exec_ir@, *rvalue)),
        ensures
            final(self).exec_ir == old(self).exec_ir,
            r is Ok ==> final(self).wf(),
            lowers(old(self).exec_ir@, old(self)@, final(self)@, *rvalue, r),
    {
        let ghost ops = operands(self.exec_ir@, *rvalue);
        assert(ops.len() > 0 ==> self@.val(SSAValue { index: ops[0] }) < self@.types.len());
        assert(ops.len() > 1 ==> self@.val(SSAValue { index: ops[1] }) < self@.types.len());
        assert(ops.len() > 2 ==> self@.val(SSAValue { index: ops[2] }) < self@.types.len());
        let value: u64 = match *rvalue {
            StmtKind::HostCallback { func, signature, args: _ } => {
                let ptr_ty = self.ptr_ty;
                let list = self.keep_list(lowered);
                let callee: u64 = self.ins1(ClifOp::FuncAddr { func }, ptr_ty);
                let op = ClifOp::CallIndirect { signature, callee, args: list };
                match signature.ret() {
                    Some(ty) => self.ins1(op, ir_ty_to_clif_ty(ptr_ty, ty)),
                    None => {
                        self.ins0(op);
                        return Ok(no_value());
                    },
                }
            },
            _ => {
                return Ok(no_value());
            },
        };
        Ok(one_value(value))
    }

    /// Lowers an access to guest memory.
    #[verifier::spinoff_prover]
    #[verifier::rlimit(100)]
    fn lower_guest_access(&mut self, rvalue: &StmtKind) -> (r: Result<ArrayVec<u64, 2>, LoweringError>)
        requires
            old(self).wf(),
            old(self).exec_ir@.typed(*rvalue),
            operands_ready(old(self).exec_ir@, old(self)@, *rvalue),
            rvalue is VMLoadRaw || rvalue is VMStoreRaw,
        ensures
            final(self).exec_ir == old(self).exec_ir,
            r is Ok ==> final(self).wf(),
            lowers(old(self).exec_ir@, old(self)@, final(self)@, *rvalue, r),
    {
        let ghost ops = operands(self.exec_ir@, *rvalue);
        assert(ops.len() > 0 ==> self@.val(SSAValue { index: ops[0] }) < self@.types.len());
        assert(ops.len() > 1 ==> self@.val(SSAValue { index: ops[1] }) < self@.types.len());
        assert(ops.len() > 2 ==> self@.val(SSAValue { index: ops[2] }) < self@.types.len());
        let value: u64 = match *rvalue {
            // loads are always `SeqCst` in the code generator, which is
            // stronger than relaxed or acquire
            StmtKind::VMLoadRaw { aligned_page_ptr, page_offset, width, seq_cst: _ } => {
                let ty = clif_int_ty(width);
                let ptr: u64 = self.ptr_add(aligned_page_ptr, page_offset, 1);
                let flags = self.guest_memory_flags();
                self.ins1(ClifOp::AtomicLoad { ty, flags, ptr }, ty)
            },
            // and so are stores
            StmtKind::VMStoreRaw { aligned_page_ptr, page_offset, value, seq_cst: _ } => {
                let value: u64 = self.use_value(value);
                let ptr: u64 = self.ptr_add(aligned_page_ptr, page_offset, 1);
                let flags = self.guest_memory_flags();
                self.ins0(ClifOp::AtomicStore { flags, value, ptr });
                return Ok(no_value());
            },
            _ => {
                return Ok(no_value());
            },
        };
        Ok(one_value(value))
    }

    /// Lowers what concerns halting and page flags.
    #[verifier::spinoff_prover]
    #[verifier::rlimit(100)]
    fn lower_halt(&mut self, rvalue: &StmtKind) -> (r: Result<ArrayVec<u64, 2>, LoweringError>)
        requires
            old(self).wf(),
            old(self).exec_ir@.typed(*rvalue),
            operands_ready(old(self).exec_ir@, old(self)@, *rvalue),
            rvalue is LoadHaltReason || rvalue is TakeHaltReason || rvalue is SetPageDirtyFlag
                || rvalue is Safepoint,
        ensures
            final(self).exec_ir == old(self).exec_ir,
            r is Ok ==> final(self).wf(),
            lowers(old(self).exec_ir@, old(self)@, final(self)@, *rvalue, r),
    {
        let ghost ops = operands(self.exec_ir@, *rvalue);
        assert(ops.len() > 0 ==> self@.val(SSAValue { index: ops[0] }) < self@.types.len());
        assert(ops.len() > 1 ==> self@.val(SSAValue { index: ops[1] }) < self@.types.len());
        assert(ops.len() > 2 ==> self@.val(SSAValue { index: ops[2] }) < self@.types.len());
        let value: u64 = match *rvalue {
            // although reading the halt reason is always safe, moving the
            // read would let the function poll a stale one
            StmtKind::LoadHaltReason => {
                let ptr: u64 = self.use_value(Arg::HaltReasonPtr.as_ssa_value());
                let flags = self.host_memory_flags(false, AliasRegion::HaltReason);
                self.ins1(ClifOp::AtomicLoad { ty: ClifTy::I32, flags, ptr }, ClifTy::I32)
            },
            StmtKind::TakeHaltReason => {
                let zero: u64 = self.ins1(
                    ClifOp::Iconst { ty: ClifTy::I32, bits: 0 },
                    ClifTy::I32,
                );
                let ptr: u64 = self.use_value(Arg::HaltReasonPtr.as_ssa_value());
                let flags = self.host_memory_flags(false, AliasRegion::HaltReason);
                self.ins1(
                    ClifOp::AtomicRmw {
                        ty: ClifTy::I32,
                        flags,
                        op: ClifRmw::Xchg,
                        ptr,
                        value: zero,
                    },
                    ClifTy::I32,
                )
            },
            // this must not move: it has to happen after the page was written
            StmtKind::SetPageDirtyFlag(page_flags) => {
                let ptr: u64 = self.use_value(page_flags);
                let flag: u64 = self.ins1(
                    ClifOp::Iconst { ty: ClifTy::I8, bits: PAGE_DIRTY_FLAG as u64 },
                    ClifTy::I8,
                );
                let flags = self.host_memory_flags(false, AliasRegion::PageFlags);
                let _ = self.ins1(
                    ClifOp::AtomicRmw {
                        ty: ClifTy::I8,
                        flags,
                        op: ClifRmw::Or,
                        ptr,
                        value: flag,
                    },
                    ClifTy::I8,
                );
                return Ok(no_value());
            },
            StmtKind::Safepoint => {
                return Ok(no_value());
            },
            _ => {
                return Ok(no_value());
            },
        };
        Ok(one_value(value))
    }

    /// Lowers a statement: appends its instructions, and gives the values of
    /// its outputs.
    fn lower_rvalue(&mut self, rvalue: &StmtKind) -> (r: Result<ArrayVec<u64, 2>, LoweringError>)
        requires
            old(self).wf(),
            old(self).exec_ir@.typed(*rvalue),
        ensures
            final(self).exec_ir == old(self).exec_ir,
            r is Ok ==> final(self).wf(),
            lowers(old(self).exec_ir@, old(self)@, final(self)@, *rvalue, r),
    {
        let ghost v = self@;
        let ghost ir = self.exec_ir@;
        let ghost ops = operands(ir, *rvalue);
        let reads: Vec<u64> = self.operand_list(rvalue);
        let lowered: InlineList = match self.use_values(reads.as_slice()) {
            Some(list) => list,
            None => {
                return Err(LoweringError::ValueNotLowered);
            },
        };
        proof {
            assert forall|i: int| 0 <= i < ops.len() implies v.val(
                SSAValue { index: #[trigger] ops[i] },
            ) < v.types.len() && (ir.types[ops[i] as int] is Bool || v.ty(
                SSAValue { index: ops[i] },
            ) == spec_clif_ty(v.ptr_ty, ir.types[ops[i] as int])) by {
                assert(v.ready(ops[i]));
                lemma_value_type(ir, v, SSAValue { index: ops[i] });
            }
        }
        match *rvalue {
            StmtKind::IConst(_) => self.lower_arith(rvalue),
            StmtKind::ArithBinOp { .. } => self.lower_arith(rvalue),
            StmtKind::IntNeg(_) => self.lower_arith(rvalue),
            StmtKind::OverflowingBinOp { .. } => self.lower_arith(rvalue),
            StmtKind::IntCmp { .. } => self.lower_logic(rvalue),
            StmtKind::IntCmpImm { .. } => self.lower_logic(rvalue),
            StmtKind::Select { .. } => self.lower_logic(rvalue),
            StmtKind::Bitwise { .. } => self.lower_logic(rvalue),
            StmtKind::BitwiseImm { .. } => self.lower_logic(rvalue),
            StmtKind::BitNot(_) => self.lower_logic(rvalue),
            StmtKind::Shift { .. } => self.lower_shift(rvalue),
            StmtKind::ShiftUnbounded { .. } => self.lower_shift(rvalue),
            StmtKind::ShiftImm { .. } => self.lower_shift(rvalue),
            StmtKind::LoadStackPtr { .. } => self.lower_pointer(rvalue),
            StmtKind::PtrAdd { .. } => self.lower_pointer(rvalue),
            StmtKind::PtrEq(_, _) => self.lower_pointer(rvalue),
            StmtKind::HasTag { .. } => self.lower_pointer(rvalue),
            StmtKind::Untag { .. } => self.lower_pointer(rvalue),
            StmtKind::LoadHost { .. } => self.lower_host_access(rvalue),
            StmtKind::StoreHost { .. } => self.lower_host_access(rvalue),
            StmtKind::HostCallback { .. } => self.lower_call(lowered, rvalue),
            StmtKind::VMLoadRaw { .. } => self.lower_guest_access(rvalue),
            StmtKind::VMStoreRaw { .. } => self.lower_guest_access(rvalue),
            StmtKind::LoadHaltReason => self.lower_halt(rvalue),
            StmtKind::TakeHaltReason => self.lower_halt(rvalue),
            StmtKind::SetPageDirtyFlag(_) => self.lower_halt(rvalue),
            StmtKind::Safepoint => self.lower_halt(rvalue),
        }
    }
}

/// A block that ends with a halt reason that is no 32-bit number.
pub open spec fn odd_code(ir: IrView, terminator: TerminatorView) -> bool {
    terminator matches TerminatorView::ReturnCode(reason) && ir.types[reason.index as int]
        != TypeFull::Int(IntWidth::W32)
}

/// A halt reason that is an integer is a 32-bit number.
pub open spec fn sound_code(ir: IrView, terminator: TerminatorView) -> bool {
    terminator matches TerminatorView::ReturnCode(reason) ==> (ir.types[reason.index as int] matches
        TypeFull::Int(width) ==> width == IntWidth::W32)
}

/// The first `n` blocks of the compile order end so.
pub open spec fn sound_codes(ir: IrView, n: int) -> bool {
    forall|j: int|
        0 <= j < n ==> sound_code(ir, ir.blocks[#[trigger] ir.compile_order()[j] as int].terminator)
}

/// Some block that is compiled ends so.
pub open spec fn some_odd_code(ir: IrView) -> bool {
    exists|b: u64| #[trigger]
        ir.compile_order().contains(b) && odd_code(ir, ir.blocks[b as int].terminator)
}

/// A block of the compile order has a lowered block, and so has everything
/// it branches to.
pub open spec fn knows_blocks(ir: IrView, v: LowerView) -> bool {
    forall|b: u64|
        #[trigger] ir.compile_order().contains(b) ==> b < v.block_of.len() && v.block_of[b as int] is Some
}

impl<'a> FunctionLowering<'a> {
    /// Lowers a statement and remembers the values of its outputs.
    #[verifier::spinoff_prover]
    #[verifier::rlimit(60)]
    fn lower_stmt(&mut self, stmt: Stmt) -> (r: Result<(), LoweringError>)
        requires
            old(self).wf(),
            stmt.index < old(self).exec_ir@.stmts.len(),
        ensures
            final(self).exec_ir == old(self).exec_ir,
            match r {
                Ok(_) => {
                    &&& final(self).wf()
                    &&& final(self)@.block_of == old(self)@.block_of
                    &&& old(self)@.lower_stmt(
                        old(self).exec_ir@,
                        old(self).exec_ir@.stmts[stmt.index as int],
                    ) == Ok::<LowerView, LoweringError>(final(self)@)
                },
                Err(error) => old(self)@.lower_stmt(
                    old(self).exec_ir@,
                    old(self).exec_ir@.stmts[stmt.index as int],
                ) == Err::<LowerView, LoweringError>(error),
            },
    {
        let ghost ir = self.exec_ir@;
        let ghost data = ir.stmts[stmt.index as int];
        let exec_ir: &'a ExecIr = self.exec_ir;
        proof {
            lemma_wf_stmt(ir, stmt.index as int);
            assert(exec_ir.body.stmts.len() == ir.stmts.len());
            assert(exec_ir.body.stmts@[stmt.index as int]@ == data);
        }
        let rvalue: StmtKind = exec_ir.body.stmts[stmt.index as usize].rvalue;
        let vals: ArrayVec<u64, 2> = match self.lower_rvalue(&rvalue) {
            Ok(vals) => vals,
            Err(error) => {
                return Err(error);
            },
        };
        let ghost lowered = self@;
        let values = pair_as_slice(&vals);
        let outputs = pair_as_slice(&exec_ir.body.stmts[stmt.index as usize].outputs);
        let mut i: usize = 0;
        while i < outputs.len()
            invariant
                self.exec_ir == exec_ir,
                ir == exec_ir@,
                self.wf(),
                ir.stmt_ok(data),
                outputs@ == data.outputs,
                results_fit(lowered, values@, ir.output_types(data.rvalue)),
                self@.types == lowered.types,
                self@.ptr_ty == lowered.ptr_ty,
                self@.block_of == lowered.block_of,
                i <= outputs.len(),
                self@ == lowered.bind(outputs@, values@, i as int),
            decreases outputs.len() - i,
        {
            let ghost before = self@;
            let output: u64 = outputs[i];
            let value: u64 = values[i];
            assert(self.values.len() == self@.values.len());
            self.values.set(output as usize, Some(value));
            i = i + 1;
            proof {
                assert(self@ =~= lowered.bind(outputs@, values@, i as int));
            }
        }
        Ok(())
    }

    /// The lowered block of an IR block.
    fn clif_block(&self, block: Block) -> (r: u64)
        requires
            self.wf(),
            block.index < self@.block_of.len(),
            self@.block_of[block.index as int] is Some,
        ensures
            r == self@.target(block),
            r < self@.blocks.len(),
    {
        assert(self.blocks.len() == self@.block_of.len());
        match self.blocks[block.index as usize] {
            Some(lowered) => lowered,
            None => 0,
        }
    }

    /// Lowers the end of a block.
    #[verifier::spinoff_prover]
    #[verifier::rlimit(60)]
    fn lower_terminator(&mut self, terminator: &Terminator) -> (r: Result<(), LoweringError>)
        requires
            old(self).wf(),
            forall|t: u64|
                #[trigger] terminator@.targets().contains(t) ==> t < old(self)@.block_of.len()
                    && old(self)@.block_of[t as int] is Some,
        ensures
            final(self).exec_ir == old(self).exec_ir,
            match r {
                Ok(_) => {
                    &&& final(self).wf()
                    &&& final(self)@.block_of == old(self)@.block_of
                    &&& old(self)@.lower_terminator(old(self).exec_ir@, terminator@) == Ok::<
                        LowerView,
                        LoweringError,
                    >(final(self)@)
                    &&& sound_code(old(self).exec_ir@, terminator@)
                },
                Err(error) => old(self)@.lower_terminator(old(self).exec_ir@, terminator@) == Err::<
                    LowerView,
                    LoweringError,
                >(error) && (error is HaltReasonType ==> odd_code(old(self).exec_ir@, terminator@)),
            },
    {
        let ghost targets = terminator@.targets();
        match terminator {
            Terminator::Return => {
                let zero: u64 = self.ins1(
                    ClifOp::Iconst { ty: ClifTy::I32, bits: 0 },
                    ClifTy::I32,
                );
                self.ins0(ClifOp::Return { value: zero });
            },
            Terminator::ReturnCode(reason) => {
                if !self.is_ready(reason.index) {
                    return Err(LoweringError::ValueNotLowered);
                }
                let value: u64 = self.use_value(*reason);
                if self.value_type(value) != ClifTy::I32 {
                    return Err(LoweringError::HaltReasonType);
                }
                self.ins0(ClifOp::Return { value });
            },
            Terminator::Br(jump) => {
                assert(targets.contains(jump.target.index)) by {
                    assert(targets[0] == jump.target.index);
                }
                let target: u64 = self.clif_block(jump.target);
                let args: InlineList = match self.use_values(jump.parameters.as_slice()) {
                    Some(args) => args,
                    None => {
                        return Err(LoweringError::ValueNotLowered);
                    },
                };
                let args = self.keep_list(args);
                self.ins0(ClifOp::Jump { target, args });
            },
            Terminator::BrZ(cond, zero, non_zero) => {
                assert(targets.contains(zero.target.index) && targets.contains(
                    non_zero.target.index,
                )) by {
                    assert(targets[0] == zero.target.index);
                    if zero.target != non_zero.target {
                        assert(targets[1] == non_zero.target.index);
                    }
                }
                let zero_block: u64 = self.clif_block(zero.target);
                let non_zero_block: u64 = self.clif_block(non_zero.target);
                if !self.is_ready(cond.index) {
                    return Err(LoweringError::ValueNotLowered);
                }
                let non_zero_vals: InlineList = match self.use_values(
                    non_zero.parameters.as_slice(),
                ) {
                    Some(args) => args,
                    None => {
                        return Err(LoweringError::ValueNotLowered);
                    },
                };
                let zero_vals: InlineList = match self.use_values(zero.parameters.as_slice()) {
                    Some(args) => args,
                    None => {
                        return Err(LoweringError::ValueNotLowered);
                    },
                };
                let lhs: u64 = self.use_value(*cond);
                let taken: u64 = self.ins1(
                    ClifOp::CompareImm { predicate: IntCmp::NotEqual, lhs, imm: 0 },
                    ClifTy::I8,
                );
                let non_zero_args = self.keep_list(non_zero_vals);
                let zero_args = self.keep_list(zero_vals);
                self.ins0(
                    ClifOp::Brif {
                        cond: taken,
                        non_zero: non_zero_block,
                        non_zero_args,
                        zero: zero_block,
                        zero_args,
                    },
                );
            },
        }
        Ok(())
    }

    /// Whether an IR value has been lowered.
    fn is_ready(&self, value: u64) -> (r: bool)
        ensures
            r == self@.ready(value),
    {
        assert(self.values.len() == self@.values.len());
        value < self.values.len() as u64 && self.values[value as usize].is_some()
    }

    /// Lowers one block.
    #[verifier::spinoff_prover]
    #[verifier::rlimit(60)]
    fn lower_block(&mut self, block: Block) -> (r: Result<(), LoweringError>)
        requires
            old(self).wf(),
            knows_blocks(old(self).exec_ir@, old(self)@),
            old(self).exec_ir@.compile_order().contains(block.index),
        ensures
            final(self).exec_ir == old(self).exec_ir,
            match r {
                Ok(_) => {
                    &&& final(self).wf()
                    &&& final(self)@.block_of == old(self)@.block_of
                    &&& old(self)@.lower_block(old(self).exec_ir@, block.index) == Ok::<
                        LowerView,
                        LoweringError,
                    >(final(self)@)
                    &&& sound_code(
                        old(self).exec_ir@,
                        old(self).exec_ir@.blocks[block.index as int].terminator,
                    )
                },
                Err(error) => old(self)@.lower_block(old(self).exec_ir@, block.index) == Err::<
                    LowerView,
                    LoweringError,
                >(error) && (error is HaltReasonType ==> odd_code(
                    old(self).exec_ir@,
                    old(self).exec_ir@.blocks[block.index as int].terminator,
                )),
            },
    {
        let ghost ir = self.exec_ir@;
        let exec_ir: &'a ExecIr = self.exec_ir;
        let ghost data = ir.blocks[block.index as int];
        proof {
            assert(block.index < self@.block_of.len());
            assert(self.func.blocks.len() == self@.blocks.len());
            assert(exec_ir.body.blocks.len() == ir.blocks.len());
            assert(exec_ir.body.blocks@[block.index as int]@ == data);
            lemma_wf_block(ir, block);
        }
        let lowered: u64 = self.clif_block(block);
        self.current = lowered as usize;
        let ghost start = self@;
        assert(start =~= (LowerView {
            current: old(self)@.block_of[block.index as int]->0 as nat,
            ..old(self)@
        }));
        let stmts: &Vec<Stmt> = &exec_ir.body.blocks[block.index as usize].stmts;
        let mut i: usize = 0;
        while i < stmts.len()
            invariant
                self.exec_ir == exec_ir,
                exec_ir == old(self).exec_ir,
                ir == exec_ir@,
                data == ir.blocks[block.index as int],
                start == (LowerView {
                    current: old(self)@.block_of[block.index as int]->0 as nat,
                    ..old(self)@
                }),
                self.wf(),
                stmts@ == data.stmts,
                ir.block_ok(data),
                self@.block_of == start.block_of,
                i <= stmts.len(),
                start.lower_stmts(ir, data.stmts, i as int) == Ok::<LowerView, LoweringError>(
                    self@,
                ),
            decreases stmts.len() - i,
        {
            let stmt: Stmt = stmts[i];
            i = i + 1;
            match self.lower_stmt(stmt) {
                Ok(_) => {},
                Err(error) => {
                    proof {
                        lemma_stmts_fail(start, ir, data.stmts, i as int, data.stmts.len() as int);
                    }
                    return Err(error);
                },
            }
        }
        proof {
            assert forall|t: u64| #[trigger] data.terminator.targets().contains(t) implies t
                < self@.block_of.len() && self@.block_of[t as int] is Some by {
                assert(ir.targets(block.index).contains(t));
                lemma_order_closed(ir, block.index, t);
            }
        }
        self.lower_terminator(&exec_ir.body.blocks[block.index as usize].terminator)
    }

    /// Lowers the blocks in compile order.
    #[verifier::spinoff_prover]
    #[verifier::rlimit(60)]
    fn lower_blocks(&mut self) -> (r: Result<(), LoweringError>)
        requires
            old(self).wf(),
            old(self).exec_ir.wf(),
            knows_blocks(old(self).exec_ir@, old(self)@),
        ensures
            final(self).exec_ir == old(self).exec_ir,
            match r {
                Ok(_) => old(self)@.lower_blocks(
                    old(self).exec_ir@,
                    old(self).exec_ir@.compile_order(),
                    old(self).exec_ir@.compile_order().len() as int,
                ) == Ok::<LowerView, LoweringError>(final(self)@) && sound_codes(
                    old(self).exec_ir@,
                    old(self).exec_ir@.compile_order().len() as int,
                ),
                Err(error) => old(self)@.lower_blocks(
                    old(self).exec_ir@,
                    old(self).exec_ir@.compile_order(),
                    old(self).exec_ir@.compile_order().len() as int,
                ) == Err::<LowerView, LoweringError>(error) && (error is HaltReasonType
                    ==> some_odd_code(old(self).exec_ir@)),
            },
    {
        let ghost start = self@;
        let ghost ir = self.exec_ir@;
        let ghost order = ir.compile_order();
        let exec_ir: &'a ExecIr = self.exec_ir;
        let mut i: usize = 0;
        while i < exec_ir.block_compile_order.len()
            invariant
                self.exec_ir == exec_ir,
                exec_ir == old(self).exec_ir,
                start == old(self)@,
                ir == exec_ir@,
                exec_ir.wf(),
                order == ir.compile_order(),
                self.wf(),
                self@.block_of == start.block_of,
                knows_blocks(ir, start),
                i <= exec_ir.block_compile_order.len(),
                start.lower_blocks(ir, order, i as int) == Ok::<LowerView, LoweringError>(self@),
                sound_codes(ir, i as int),
            decreases exec_ir.block_compile_order.len() - i,
        {
            let block: Block = exec_ir.block_compile_order[i];
            assert(order[i as int] == block.index);
            assert(order.contains(block.index));
            i = i + 1;
            match self.lower_block(block) {
                Ok(_) => {},
                Err(error) => {
                    proof {
                        lemma_blocks_fail(start, ir, order, i as int, order.len() as int);
                    }
                    return Err(error);
                },
            }
        }
        Ok(())
    }
}

/// The logarithm of a power of two.
fn log2(align: u8) -> (r: u8)
    ensures
        r == spec_log2(align),
{
    if align < 2 {
        0
    } else if align < 4 {
        1
    } else if align < 8 {
        2
    } else if align < 16 {
        3
    } else if align < 32 {
        4
    } else if align < 64 {
        5
    } else if align < 128 {
        6
    } else {
        7
    }
}

/// What is known while the blocks are added: `wf` without a current block.
spec fn preparing(ir: IrView, v: LowerView) -> bool {
    &&& v.types.len() <= u64::MAX
    &&& v.lists.len() <= u64::MAX
    &&& v.blocks.len() <= u64::MAX
    &&& v.values.len() == ir.types.len()
    &&& v.block_of.len() == ir.blocks.len()
    &&& forall|i: int|
        0 <= i < v.values.len() ==> (#[trigger] v.values[i] matches Some(x) ==> x < v.types.len()
            && (ir.types[i] is Bool || v.types[x as int] == spec_clif_ty(v.ptr_ty, ir.types[i])))
    &&& forall|b: int|
        0 <= b < v.block_of.len() ==> (#[trigger] v.block_of[b] matches Some(x) ==> x
            < v.blocks.len())
}

impl<'a> FunctionLowering<'a> {
    /// Adds the lowered block of an IR block, with its parameters.
    #[verifier::spinoff_prover]
    #[verifier::rlimit(60)]
    fn add_block(&mut self, block: Block)
        requires
            old(self).exec_ir@.wf(),
            preparing(old(self).exec_ir@, old(self)@),
            old(self).exec_ir@.has_block(block),
        ensures
            final(self).exec_ir == old(self).exec_ir,
            preparing(final(self).exec_ir@, final(self)@),
            final(self)@ == old(self)@.add_block(old(self).exec_ir@, block.index),
            final(self)@.block_of == old(self)@.block_of.update(
                block.index as int,
                Some(old(self)@.blocks.len() as u64),
            ),
            final(self)@.blocks.len() == old(self)@.blocks.len() + 1,
    {
        let ghost ir = self.exec_ir@;
        let exec_ir: &'a ExecIr = self.exec_ir;
        let ghost data = ir.blocks[block.index as int];
        proof {
            lemma_wf_block(ir, block);
            assert(exec_ir.body.blocks.len() == ir.blocks.len());
            assert(exec_ir.body.blocks@[block.index as int]@ == data);
            assert(self.blocks.len() == self@.block_of.len());
        }
        let at: usize = self.func.blocks.len();
        let cold: bool = exec_ir.body.blocks[block.index as usize].is_cold;
        self.func.blocks.push(ClifBlock { params: Vec::new(), cold, insts: Vec::new() });
        self.blocks.set(block.index as usize, Some(at as u64));
        let ghost start = self@;
        proof {
            assert(self.func.blocks.len() == old(self)@.blocks.len() + 1);
            assert(start =~= (LowerView {
                blocks: old(self)@.blocks.push(
                    ClifBlockView { params: Seq::empty(), cold: data.is_cold, insts: Seq::empty() },
                ),
                block_of: old(self)@.block_of.update(
                    block.index as int,
                    Some(old(self)@.blocks.len() as u64),
                ),
                ..old(self)@
            }));
        }
        let params = exec_ir.body.blocks[block.index as usize].parameters.as_slice();
        let mut i: usize = 0;
        while i < params.len()
            invariant
                self.exec_ir == exec_ir,
                ir == exec_ir@,
                ir.block_ok(data),
                params@ == data.parameters,
                preparing(ir, self@),
                self@.block_of == start.block_of,
                self@.blocks.len() == start.blocks.len(),
                self@.blocks.len() == at + 1,
                self@.ptr_ty == start.ptr_ty,
                i <= params.len(),
                self@ == start.add_params(ir, params@, i as int),
            decreases params.len() - i,
        {
            let ghost before = self@;
            let param: u64 = params[i];
            assert(exec_ir.body.ssa_values.len() == ir.types.len());
            assert(self.values.len() == self@.values.len());
            let ty: ClifTy = ir_ty_to_clif_ty(
                self.ptr_ty,
                exec_ir.body.ssa_values[param as usize],
            );
            let value: u64 = self.func.types.len() as u64;
            self.func.types.push(ty);
            assert(self.func.blocks@[at as int]@ == before.blocks.last());
            self.func.blocks[at].params.push(value);
            self.values.set(param as usize, Some(value));
            i = i + 1;
            proof {
                assert(self.func.types.len() == before.types.len() + 1);
                let after = start.add_params(ir, params@, i as int);
                assert(self@.blocks =~= after.blocks);
                assert(self@ =~= after);
            }
        }
    }

    /// Prepares the lowering of a function: its stack space, and its blocks
    /// with their parameters.
    #[verifier::spinoff_prover]
    #[verifier::rlimit(60)]
    pub fn new(exec_ir: &'a ExecIr, ptr_ty: ClifTy) -> (r: Result<
        FunctionLowering<'a>,
        LoweringError,
    >)
        requires
            exec_ir.wf(),
        ensures
            match r {
                Ok(lowering) => {
                    &&& exec_ir@.blocks[0].parameters.len() == 6
                    &&& lowering.exec_ir == exec_ir
                    &&& lowering.wf()
                    &&& knows_blocks(exec_ir@, lowering@)
                    &&& lowering@ == LowerView::blank(exec_ir@, ptr_ty).add_blocks(
                        exec_ir@,
                        exec_ir@.compile_order(),
                        exec_ir@.compile_order().len() as int,
                    )
                },
                Err(error) => error == LoweringError::EntryParameters
                    && exec_ir@.blocks[0].parameters.len() != 6,
            },
    {
        let ghost ir = exec_ir@;
        let ghost order = ir.compile_order();
        proof {
            lemma_wf(ir);
            law_order_is_complete(ir);
            assert(exec_ir.body.blocks@[0]@ == ir.blocks[0]);
        }
        if exec_ir.body.blocks[0].parameters.len() as u64 != ARG_COUNT {
            return Err(LoweringError::EntryParameters);
        }
        let mut slots: Vec<ClifSlot> = Vec::new();
        let mut i: usize = 0;
        while i < exec_ir.body.stack_slots.len()
            invariant
                ir == exec_ir@,
                i <= exec_ir.body.stack_slots.len(),
                slots@ == Seq::new(i as nat, |k: int| lowered_slot(ir.slots[k])),
            decreases exec_ir.body.stack_slots.len() - i,
        {
            let slot: StackSlotData = exec_ir.body.stack_slots[i];
            slots.push(ClifSlot { size: slot.size, align_shift: log2(slot.align) });
            i = i + 1;
            assert(slots@ =~= Seq::new(i as nat, |k: int| lowered_slot(ir.slots[k])));
        }
        let mut values: Vec<Option<u64>> = Vec::new();
        let mut i: usize = 0;
        while i < exec_ir.body.ssa_values.len()
            invariant
                i <= exec_ir.body.ssa_values.len(),
                values@ == Seq::new(i as nat, |k: int| None::<u64>),
            decreases exec_ir.body.ssa_values.len() - i,
        {
            values.push(None);
            i = i + 1;
            assert(values@ =~= Seq::new(i as nat, |k: int| None::<u64>));
        }
        let mut blocks: Vec<Option<u64>> = Vec::new();
        let mut i: usize = 0;
        while i < exec_ir.body.blocks.len()
            invariant
                i <= exec_ir.body.blocks.len(),
                blocks@ == Seq::new(i as nat, |k: int| None::<u64>),
            decreases exec_ir.body.blocks.len() - i,
        {
            blocks.push(None);
            i = i + 1;
            assert(blocks@ =~= Seq::new(i as nat, |k: int| None::<u64>));
        }
        let func = ClifFunction {
            types: Vec::new(),
            blocks: Vec::new(),
            lists: Vec::new(),
            slots,
        };
        let mut lowering = FunctionLowering { exec_ir, func, values, blocks, current: 0, ptr_ty };
        let ghost start = lowering@;
        assert(start =~= LowerView::blank(ir, ptr_ty));
        let mut i: usize = 0;
        while i < exec_ir.block_compile_order.len()
            invariant
                exec_ir.wf(),
                ir == exec_ir@,
                ir.wf(),
                order == ir.compile_order(),
                forall|b: u64| #[trigger] order.contains(b) ==> b < ir.blocks.len(),
                lowering.exec_ir == exec_ir,
                lowering.current == 0,
                preparing(ir, lowering@),
                i <= exec_ir.block_compile_order.len(),
                lowering@.blocks.len() == i,
                forall|k: int|
                    0 <= k < i ==> lowering@.block_of[#[trigger] order[k] as int] is Some,
                lowering@ == start.add_blocks(ir, order, i as int),
                lowering@.current == 0,
            decreases exec_ir.block_compile_order.len() - i,
        {
            let block: Block = exec_ir.block_compile_order[i];
            assert(order[i as int] == block.index);
            assert(order.contains(block.index));
            let ghost before = lowering@;
            lowering.add_block(block);
            i = i + 1;
            proof {
                lemma_current_kept(ir, before, block.index);
                assert forall|k: int| 0 <= k < i implies lowering@.block_of[
                    #[trigger] order[k] as int
                ] is Some by {
                    assert(order.contains(order[k]));
                    if k < i - 1 {
                        assert(before.block_of[order[k] as int] is Some);
                    }
                }
            }
        }
        proof {
            assert forall|b: u64| #[trigger] order.contains(b) implies b < lowering@.block_of.len()
                && lowering@.block_of[b as int] is Some by {
                let k = order.index_of(b);
                assert(order[k] == b);
            }
        }
        Ok(lowering)
    }
}

/// Adding a block leaves the current block as it is.
proof fn lemma_current_kept(ir: IrView, v: LowerView, b: u64)
    ensures
        v.add_block(ir, b).current == v.current,
{
    let data = ir.blocks[b as int];
    let w = LowerView {
        blocks: v.blocks.push(
            ClifBlockView { params: Seq::empty(), cold: data.is_cold, insts: Seq::empty() },
        ),
        block_of: v.block_of.update(b as int, Some(v.blocks.len() as u64)),
        ..v
    };
    lemma_params_keep_current(ir, w, data.parameters, data.parameters.len() as int);
}

proof fn lemma_params_keep_current(ir: IrView, v: LowerView, params: Seq<u64>, n: int)
    ensures
        v.add_params(ir, params, n).current == v.current,
    decreases n,
{
    if n > 0 {
        lemma_params_keep_current(ir, v, params, n - 1);
    }
}

/// Lowers a function to the instructions of the code generator.
pub fn lower_function(exec_ir: &ExecIr, ptr_ty: ClifTy) -> (r: Result<ClifFunction, LoweringError>)
    requires
        exec_ir.wf(),
    ensures
        match r {
            Ok(func) => {
                &&& lowered(exec_ir@, ptr_ty) matches Ok(view)
                &&& view.types == func.types@
                &&& view.blocks == func.blocks@.map_values(|block: ClifBlock| block@)
                &&& view.lists == func.lists@.map_values(|list: InlineList| list@)
                &&& view.slots == func.slots@
                &&& sound_codes(exec_ir@, exec_ir@.compile_order().len() as int)
            },
            Err(error) => lowered(exec_ir@, ptr_ty) == Err::<LowerView, LoweringError>(error) && (
            error is HaltReasonType ==> some_odd_code(exec_ir@)),
        },
{
    let mut lowering = match FunctionLowering::new(exec_ir, ptr_ty) {
        Ok(lowering) => lowering,
        Err(error) => {
            return Err(error);
        },
    };
    match lowering.lower_blocks() {
        Ok(_) => Ok(lowering.func),
        Err(error) => Err(error),
    }
}

/// What cannot be lowered makes everything after it fail.
pub proof fn lemma_stmts_fail(v: LowerView, ir: IrView, stmts: Seq<Stmt>, n: int, end: int)
    requires
        0 <= n <= end,
        v.lower_stmts(ir, stmts, n) is Err,
    ensures
        v.lower_stmts(ir, stmts, end) == v.lower_stmts(ir, stmts, n),
    decreases end - n,
{
    if n < end {
        lemma_stmts_fail(v, ir, stmts, n, end - 1);
    }
}

pub proof fn lemma_blocks_fail(v: LowerView, ir: IrView, order: Seq<u64>, n: int, end: int)
    requires
        0 <= n <= end,
        v.lower_blocks(ir, order, n) is Err,
    ensures
        v.lower_blocks(ir, order, end) == v.lower_blocks(ir, order, n),
    decreases end - n,
{
    if n < end {
        lemma_blocks_fail(v, ir, order, n, end - 1);
    }
}

} // verus!
