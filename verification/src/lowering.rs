//! Lowering the IR to the instructions of a code generator.
//!
//! The instructions are those of Cranelift's IR, held as plain values: a
//! [`ClifFunction`] says which of them to build, in which order and with
//! which operands.
use vstd::prelude::*;
use crate::inline_list::InlineList;
use crate::ir::layout::PAGE_DIRTY_FLAG;
use crate::ir::model::{IrView, StmtView};
use crate::ir::types::{
    AliasRegion, Arg, ArithBinOp, BitwiseOp, Block, CallbackSignature, HostCallback, IntCmp,
    IntWidth, LoadType, OverflowingBinOp, SSAValue, ShiftOp, StackSlotData, Stmt, StmtKind,
    TerminatorView, TypeFull,
};

verus! {

/// The type of a lowered value.
#[derive(Debug, Clone, Copy, PartialEq, Eq, Structural)]
pub enum ClifTy {
    I8,
    I16,
    I32,
    I64,
}

/// An operation with two operands of one type, which its result has too. The
/// amount of a shift may have any type.
#[derive(Debug, Clone, Copy, PartialEq, Eq, Structural)]
pub enum ClifBinary {
    Iadd,
    Isub,
    Imul,
    Udiv,
    Sdiv,
    Band,
    Bor,
    Bxor,
    Sshr,
    Ushr,
    Ishl,
}

/// An operation with one operand, whose type its result has too.
#[derive(Debug, Clone, Copy, PartialEq, Eq, Structural)]
pub enum ClifUnary {
    Ineg,
    Bnot,
}

/// An atomic read-modify-write operation.
#[derive(Debug, Clone, Copy, PartialEq, Eq, Structural)]
pub enum ClifRmw {
    Xchg,
    Or,
}

/// What is promised of a memory access. Every access is aligned and does not
/// trap.
#[derive(Debug, Clone, Copy, PartialEq, Eq, Structural)]
pub struct ClifMemFlags {
    /// The region that the access stays in.
    pub region: AliasRegion,
    /// The access is safe regardless of any condition.
    pub can_move: bool,
    /// Nothing ever writes the memory.
    pub readonly: bool,
    /// The memory holds little-endian numbers, whatever the host is.
    pub little_endian: bool,
}

/// A list of values.
#[derive(Debug, Clone, Copy, PartialEq, Eq, Structural)]
pub struct ClifList {
    pub index: u64,
}

/// An instruction. Operands are the numbers of values.
#[allow(inconsistent_fields)]
#[derive(Debug, Clone, Copy, PartialEq, Eq, Structural)]
pub enum ClifOp {
    Iconst { ty: ClifTy, bits: u64 },
    /// The address of a host function.
    FuncAddr { func: HostCallback },
    Binary { op: ClifBinary, lhs: u64, rhs: u64 },
    /// The immediate is sign-extended from 64 bits, or cut to the type.
    BinaryImm { op: ClifBinary, lhs: u64, imm: u64 },
    Unary { op: ClifUnary, value: u64 },
    Compare { predicate: IntCmp, lhs: u64, rhs: u64 },
    CompareImm { predicate: IntCmp, lhs: u64, imm: u64 },
    Select { cond: u64, if_true: u64, if_false: u64 },
    /// Gives the wrapped result and whether it overflowed.
    Overflowing { op: OverflowingBinOp, lhs: u64, rhs: u64 },
    Load { ty: ClifTy, flags: ClifMemFlags, base: u64, offset: u32 },
    Store { flags: ClifMemFlags, value: u64, base: u64, offset: u32 },
    StackAddr { slot: u64 },
    Uextend { ty: ClifTy, value: u64 },
    Ireduce { ty: ClifTy, value: u64 },
    CallIndirect { signature: CallbackSignature, callee: u64, args: ClifList },
    AtomicLoad { ty: ClifTy, flags: ClifMemFlags, ptr: u64 },
    AtomicStore { flags: ClifMemFlags, value: u64, ptr: u64 },
    AtomicRmw { ty: ClifTy, flags: ClifMemFlags, op: ClifRmw, ptr: u64, value: u64 },
    Return { value: u64 },
    Jump { target: u64, args: ClifList },
    Brif {
        cond: u64,
        non_zero: u64,
        non_zero_args: ClifList,
        zero: u64,
        zero_args: ClifList,
    },
}

/// An instruction with the number of its first result.
#[derive(Debug, Clone, Copy, PartialEq, Eq, Structural)]
pub struct ClifInst {
    pub op: ClifOp,
    pub result: u64,
}

/// A block: its parameters, whether it is cold, and its instructions.
pub struct ClifBlock {
    pub params: Vec<u64>,
    pub cold: bool,
    pub insts: Vec<ClifInst>,
}

/// Stack space, with the logarithm of its alignment.
#[derive(Debug, Clone, Copy, PartialEq, Eq, Structural)]
pub struct ClifSlot {
    pub size: u32,
    pub align_shift: u8,
}

/// A function to build.
pub struct ClifFunction {
    /// The type of each value, in the order in which they are created.
    pub types: Vec<ClifTy>,
    pub blocks: Vec<ClifBlock>,
    pub lists: Vec<InlineList>,
    pub slots: Vec<ClifSlot>,
}

/// Why a function cannot be lowered.
#[derive(Debug, Clone, Copy, PartialEq, Eq, Structural)]
pub enum LoweringError {
    /// A value is used before it is computed.
    ValueNotLowered,
    /// The entry block has other parameters than the arguments.
    EntryParameters,
    /// The offset of a host access does not fit the instruction.
    OffsetTooLarge,
    /// The size of an element does not fit the instruction.
    ElementTooLarge,
    /// A halt reason is not a 32-bit number.
    HaltReasonType,
}

pub open spec fn spec_int_ty(width: IntWidth) -> ClifTy {
    match width {
        IntWidth::W8 => ClifTy::I8,
        IntWidth::W16 => ClifTy::I16,
        IntWidth::W32 => ClifTy::I32,
        IntWidth::W64 => ClifTy::I64,
    }
}

pub fn clif_int_ty(width: IntWidth) -> (r: ClifTy)
    ensures
        r == spec_int_ty(width),
{
    match width {
        IntWidth::W8 => ClifTy::I8,
        IntWidth::W16 => ClifTy::I16,
        IntWidth::W32 => ClifTy::I32,
        IntWidth::W64 => ClifTy::I64,
    }
}

/// The type of a lowered value: a boolean is a byte.
pub open spec fn spec_clif_ty(ptr_ty: ClifTy, ty: TypeFull) -> ClifTy {
    match ty {
        TypeFull::Bool => ClifTy::I8,
        TypeFull::Int(width) => spec_int_ty(width),
        TypeFull::HostPtr(_) => ptr_ty,
    }
}

pub fn ir_ty_to_clif_ty(ptr_ty: ClifTy, ty: TypeFull) -> (r: ClifTy)
    ensures
        r == spec_clif_ty(ptr_ty, ty),
{
    match ty {
        TypeFull::Bool => ClifTy::I8,
        TypeFull::Int(width) => clif_int_ty(width),
        TypeFull::HostPtr(_) => ptr_ty,
    }
}

impl ClifTy {
    pub open spec fn spec_bits(self) -> int {
        match self {
            ClifTy::I8 => 8,
            ClifTy::I16 => 16,
            ClifTy::I32 => 32,
            ClifTy::I64 => 64,
        }
    }

    /// The number of bits.
    pub fn bits(self) -> (r: u32)
        ensures
            r == self.spec_bits(),
    {
        match self {
            ClifTy::I8 => 8,
            ClifTy::I16 => 16,
            ClifTy::I32 => 32,
            ClifTy::I64 => 64,
        }
    }
}

/// The parameters and the result of every compiled function.
pub open spec fn spec_exec_signature(ptr_ty: ClifTy) -> Seq<ClifTy> {
    Seq::new(6, |place: int| spec_clif_ty(ptr_ty, Arg::at(place).spec_ty()))
}

/// The parameters of every compiled function. It returns a 32-bit number.
pub fn exec_block_signature(ptr_ty: ClifTy) -> (r: Vec<ClifTy>)
    ensures
        r@ == spec_exec_signature(ptr_ty),
{
    let args: Vec<Arg> = Arg::args();
    let mut r: Vec<ClifTy> = Vec::new();
    let mut i: usize = 0;
    while i < args.len()
        invariant
            args@ == Seq::new(6, |place: int| Arg::at(place)),
            i <= args.len(),
            r@ == Seq::new(i as nat, |place: int| spec_clif_ty(ptr_ty, Arg::at(place).spec_ty())),
        decreases args.len() - i,
    {
        r.push(ir_ty_to_clif_ty(ptr_ty, args[i].ty()));
        i = i + 1;
        assert(r@ =~= Seq::new(
            i as nat,
            |place: int| spec_clif_ty(ptr_ty, Arg::at(place).spec_ty()),
        ));
    }
    assert(r@ =~= spec_exec_signature(ptr_ty));
    r
}

/// A block as a mathematical value.
#[verifier::ext_equal]
pub struct ClifBlockView {
    pub params: Seq<u64>,
    pub cold: bool,
    pub insts: Seq<ClifInst>,
}

impl View for ClifBlock {
    type V = ClifBlockView;

    open spec fn view(&self) -> ClifBlockView {
        ClifBlockView { params: self.params@, cold: self.cold, insts: self.insts@ }
    }
}

/// The function under construction as a mathematical value.
#[verifier::ext_equal]
pub struct LowerView {
    pub types: Seq<ClifTy>,
    pub blocks: Seq<ClifBlockView>,
    pub lists: Seq<Seq<u64>>,
    pub slots: Seq<ClifSlot>,
    /// The lowered value of each IR value, where there is one yet.
    pub values: Seq<Option<u64>>,
    /// The lowered block of each IR block, where there is one.
    pub block_of: Seq<Option<u64>>,
    /// The block that instructions are appended to.
    pub current: nat,
    pub ptr_ty: ClifTy,
}

/// Whether accesses in a region can be marked as reads of memory that nothing
/// writes.
pub open spec fn host_flags(can_move: bool, region: AliasRegion) -> ClifMemFlags {
    ClifMemFlags { region, can_move, readonly: region is ReadOnly, little_endian: false }
}

pub open spec fn guest_flags() -> ClifMemFlags {
    ClifMemFlags {
        region: AliasRegion::VirtualMemory,
        can_move: false,
        readonly: false,
        little_endian: true,
    }
}

pub open spec fn spec_arith_op(op: ArithBinOp) -> ClifBinary {
    match op {
        ArithBinOp::Add => ClifBinary::Iadd,
        ArithBinOp::Sub => ClifBinary::Isub,
        ArithBinOp::Mul => ClifBinary::Imul,
        ArithBinOp::UncheckedUDiv => ClifBinary::Udiv,
        ArithBinOp::UncheckedSDiv => ClifBinary::Sdiv,
    }
}

pub open spec fn spec_bitwise_op(op: BitwiseOp) -> ClifBinary {
    match op {
        BitwiseOp::And => ClifBinary::Band,
        BitwiseOp::Or => ClifBinary::Bor,
        BitwiseOp::Xor => ClifBinary::Bxor,
    }
}

pub open spec fn spec_shift_op(op: ShiftOp) -> ClifBinary {
    match op {
        ShiftOp::SignExtendShr => ClifBinary::Sshr,
        ShiftOp::ZeroExtendShr => ClifBinary::Ushr,
        ShiftOp::Shl => ClifBinary::Ishl,
    }
}

pub fn arith_op(op: ArithBinOp) -> (r: ClifBinary)
    ensures
        r == spec_arith_op(op),
{
    match op {
        ArithBinOp::Add => ClifBinary::Iadd,
        ArithBinOp::Sub => ClifBinary::Isub,
        ArithBinOp::Mul => ClifBinary::Imul,
        ArithBinOp::UncheckedUDiv => ClifBinary::Udiv,
        ArithBinOp::UncheckedSDiv => ClifBinary::Sdiv,
    }
}

pub fn bitwise_op(op: BitwiseOp) -> (r: ClifBinary)
    ensures
        r == spec_bitwise_op(op),
{
    match op {
        BitwiseOp::And => ClifBinary::Band,
        BitwiseOp::Or => ClifBinary::Bor,
        BitwiseOp::Xor => ClifBinary::Bxor,
    }
}

pub fn shift_op(op: ShiftOp) -> (r: ClifBinary)
    ensures
        r == spec_shift_op(op),
{
    match op {
        ShiftOp::SignExtendShr => ClifBinary::Sshr,
        ShiftOp::ZeroExtendShr => ClifBinary::Ushr,
        ShiftOp::Shl => ClifBinary::Ishl,
    }
}

/// The values that a statement reads.
pub open spec fn operands(ir: IrView, rvalue: StmtKind) -> Seq<u64> {
    match rvalue {
        StmtKind::IConst(_) => Seq::empty(),
        StmtKind::ArithBinOp { op: _, lhs, rhs } => seq![lhs.index, rhs.index],
        StmtKind::IntNeg(value) => seq![value.index],
        StmtKind::OverflowingBinOp { op: _, lhs, rhs } => seq![lhs.index, rhs.index],
        StmtKind::IntCmp { predicate: _, lhs, rhs } => seq![lhs.index, rhs.index],
        StmtKind::IntCmpImm { predicate: _, lhs, rhs: _ } => seq![lhs.index],
        StmtKind::Select { cond, if_true, if_false } => seq![
            cond.index,
            if_true.index,
            if_false.index,
        ],
        StmtKind::Bitwise { op: _, lhs, rhs } => seq![lhs.index, rhs.index],
        StmtKind::BitwiseImm { op: _, lhs, rhs: _ } => seq![lhs.index],
        StmtKind::BitNot(value) => seq![value.index],
        StmtKind::Shift { op: _, value, shift } => seq![value.index, shift.index],
        StmtKind::ShiftUnbounded { op: _, value, shift } => seq![value.index, shift.index],
        StmtKind::ShiftImm { op: _, value, shift: _ } => seq![value.index],
        StmtKind::LoadHost { ty: _, base_ptr, offset: _, can_move: _ } => seq![base_ptr.index],
        StmtKind::StoreHost { base_ptr, offset: _, value, can_move: _ } => seq![
            base_ptr.index,
            value.index,
        ],
        StmtKind::LoadStackPtr { .. } => Seq::empty(),
        StmtKind::PtrAdd { base_ptr, offset, elem_size: _ } => seq![base_ptr.index, offset.index],
        StmtKind::PtrEq(a, b) => seq![a.index, b.index],
        StmtKind::HasTag { ptr, tag_bits: _ } => seq![ptr.index],
        StmtKind::Untag { ptr, tag_bits: _ } => seq![ptr.index],
        StmtKind::HostCallback { func: _, signature: _, args } => ir.calls[args.index as int],
        StmtKind::VMLoadRaw { aligned_page_ptr, page_offset, width: _, seq_cst: _ } => seq![
            aligned_page_ptr.index,
            page_offset.index,
        ],
        StmtKind::VMStoreRaw { aligned_page_ptr, page_offset, value, seq_cst: _ } => seq![
            aligned_page_ptr.index,
            page_offset.index,
            value.index,
        ],
        StmtKind::LoadHaltReason => seq![Arg::HaltReasonPtr.spec_value().index],
        StmtKind::TakeHaltReason => seq![Arg::HaltReasonPtr.spec_value().index],
        StmtKind::SetPageDirtyFlag(ptr) => seq![ptr.index],
        StmtKind::Safepoint => Seq::empty(),
    }
}

impl LowerView {
    /// Whether an IR value has been lowered.
    pub open spec fn ready(self, value: u64) -> bool {
        value < self.values.len() && self.values[value as int] is Some
    }

    pub open spec fn all_ready(self, values: Seq<u64>) -> bool {
        forall|i: int| 0 <= i < values.len() ==> self.ready(#[trigger] values[i])
    }

    /// The lowered value of an IR value.
    pub open spec fn val(self, value: SSAValue) -> u64 {
        self.values[value.index as int]->0
    }

    /// The type of the lowered value of an IR value.
    pub open spec fn ty(self, value: SSAValue) -> ClifTy {
        self.types[self.val(value) as int]
    }

    /// Appends an instruction whose results have the given types.
    pub open spec fn ins(self, op: ClifOp, results: Seq<ClifTy>) -> LowerView {
        let block = self.blocks[self.current as int];
        let inst = ClifInst { op, result: self.types.len() as u64 };
        LowerView {
            types: self.types + results,
            blocks: self.blocks.update(
                self.current as int,
                ClifBlockView { insts: block.insts.push(inst), ..block },
            ),
            ..self
        }
    }

    /// Appends an instruction with one result.
    pub open spec fn ins1(self, op: ClifOp, ty: ClifTy) -> (LowerView, u64) {
        (self.ins(op, seq![ty]), self.types.len() as u64)
    }

    /// Keeps a list of values.
    pub open spec fn list(self, items: Seq<u64>) -> (LowerView, ClifList) {
        (
            LowerView { lists: self.lists.push(items), ..self },
            ClifList { index: self.lists.len() as u64 },
        )
    }

    /// The lowered values of a list of IR values.
    pub open spec fn vals(self, values: Seq<u64>) -> Seq<u64> {
        Seq::new(values.len(), |i: int| self.values[values[i] as int]->0)
    }

    /// Adds an offset, counted in elements, to a pointer.
    pub open spec fn ptr_add(self, base_ptr: SSAValue, offset: SSAValue, elem_size: usize) -> (
        LowerView,
        u64,
    ) {
        let bits = self.ty(offset).spec_bits();
        let (v1, wide) = if bits < self.ptr_ty.spec_bits() {
            self.ins1(ClifOp::Uextend { ty: self.ptr_ty, value: self.val(offset) }, self.ptr_ty)
        } else if bits == self.ptr_ty.spec_bits() {
            (self, self.val(offset))
        } else {
            self.ins1(ClifOp::Ireduce { ty: self.ptr_ty, value: self.val(offset) }, self.ptr_ty)
        };
        let (v2, scaled) = if elem_size == 1 {
            (v1, wide)
        } else {
            v1.ins1(
                ClifOp::BinaryImm { op: ClifBinary::Imul, lhs: wide, imm: elem_size as u64 },
                self.ptr_ty,
            )
        };
        v2.ins1(
            ClifOp::Binary { op: ClifBinary::Iadd, lhs: self.val(base_ptr), rhs: scaled },
            self.ptr_ty,
        )
    }

    /// A shift by an amount that may be as large as the width or larger.
    pub open spec fn shift_unbounded(self, op: ShiftOp, value: SSAValue, shift: SSAValue) -> (
        LowerView,
        u64,
    ) {
        let ty = self.ty(value);
        let x = self.val(value);
        let s = self.val(shift);
        let (v1, in_range) = self.ins1(
            ClifOp::CompareImm {
                predicate: IntCmp::UnsignedLessThan,
                lhs: s,
                imm: ty.spec_bits() as u64,
            },
            ClifTy::I8,
        );
        let (v2, shifted) = v1.ins1(
            ClifOp::Binary { op: spec_shift_op(op), lhs: x, rhs: s },
            ty,
        );
        let (v3, beyond) = match op {
            ShiftOp::SignExtendShr => v2.ins1(
                ClifOp::BinaryImm {
                    op: ClifBinary::Sshr,
                    lhs: x,
                    imm: (ty.spec_bits() - 1) as u64,
                },
                ty,
            ),
            _ => v2.ins1(ClifOp::Iconst { ty, bits: 0 }, ty),
        };
        v3.ins1(ClifOp::Select { cond: in_range, if_true: shifted, if_false: beyond }, ty)
    }

    /// Lowers a statement whose operands have been lowered. Gives the values
    /// of its outputs.
    pub open spec fn lower(self, ir: IrView, rvalue: StmtKind) -> (LowerView, Seq<u64>) {
        match rvalue {
            StmtKind::IConst(constant) => {
                let ty = spec_int_ty(constant.width);
                one(self.ins1(ClifOp::Iconst { ty, bits: constant.bits }, ty))
            },
            StmtKind::ArithBinOp { op, lhs, rhs } => one(
                self.ins1(
                    ClifOp::Binary {
                        op: spec_arith_op(op),
                        lhs: self.val(lhs),
                        rhs: self.val(rhs),
                    },
                    self.ty(lhs),
                ),
            ),
            StmtKind::IntNeg(value) => one(
                self.ins1(
                    ClifOp::Unary { op: ClifUnary::Ineg, value: self.val(value) },
                    self.ty(value),
                ),
            ),
            StmtKind::OverflowingBinOp { op, lhs, rhs } => (
                self.ins(
                    ClifOp::Overflowing { op, lhs: self.val(lhs), rhs: self.val(rhs) },
                    seq![self.ty(lhs), ClifTy::I8],
                ),
                seq![self.types.len() as u64, (self.types.len() + 1) as u64],
            ),
            StmtKind::IntCmp { predicate, lhs, rhs } => one(
                self.ins1(
                    ClifOp::Compare { predicate, lhs: self.val(lhs), rhs: self.val(rhs) },
                    ClifTy::I8,
                ),
            ),
            StmtKind::IntCmpImm { predicate, lhs, rhs } => one(
                self.ins1(
                    ClifOp::CompareImm { predicate, lhs: self.val(lhs), imm: rhs },
                    ClifTy::I8,
                ),
            ),
            StmtKind::Select { cond, if_true, if_false } => one(
                self.ins1(
                    ClifOp::Select {
                        cond: self.val(cond),
                        if_true: self.val(if_true),
                        if_false: self.val(if_false),
                    },
                    self.ty(if_true),
                ),
            ),
            StmtKind::Bitwise { op, lhs, rhs } => one(
                self.ins1(
                    ClifOp::Binary {
                        op: spec_bitwise_op(op),
                        lhs: self.val(lhs),
                        rhs: self.val(rhs),
                    },
                    self.ty(lhs),
                ),
            ),
            StmtKind::BitwiseImm { op, lhs, rhs } => one(
                self.ins1(
                    ClifOp::BinaryImm { op: spec_bitwise_op(op), lhs: self.val(lhs), imm: rhs },
                    self.ty(lhs),
                ),
            ),
            StmtKind::BitNot(value) => one(
                if ir.ty(value) is Bool {
                    self.ins1(
                        ClifOp::CompareImm { predicate: IntCmp::Equal, lhs: self.val(value), imm: 0 },
                        ClifTy::I8,
                    )
                } else {
                    self.ins1(
                        ClifOp::Unary { op: ClifUnary::Bnot, value: self.val(value) },
                        self.ty(value),
                    )
                },
            ),
            StmtKind::Shift { op, value, shift } => one(
                self.ins1(
                    ClifOp::Binary {
                        op: spec_shift_op(op),
                        lhs: self.val(value),
                        rhs: self.val(shift),
                    },
                    self.ty(value),
                ),
            ),
            StmtKind::ShiftUnbounded { op, value, shift } => one(
                self.shift_unbounded(op, value, shift),
            ),
            StmtKind::ShiftImm { op, value, shift } => one(
                self.ins1(
                    ClifOp::BinaryImm {
                        op: spec_shift_op(op),
                        lhs: self.val(value),
                        imm: shift as u64,
                    },
                    self.ty(value),
                ),
            ),
            StmtKind::LoadHost { ty, base_ptr, offset, can_move } => {
                let ty = match ty {
                    LoadType::Int(width) => spec_int_ty(width),
                    LoadType::HostPtr(_) => self.ptr_ty,
                };
                let flags = host_flags(can_move, ir.ty(base_ptr)->HostPtr_0);
                one(
                    self.ins1(
                        ClifOp::Load { ty, flags, base: self.val(base_ptr), offset: offset as u32 },
                        ty,
                    ),
                )
            },
            StmtKind::StoreHost { base_ptr, offset, value, can_move } => {
                let flags = host_flags(can_move, ir.ty(base_ptr)->HostPtr_0);
                (
                    self.ins(
                        ClifOp::Store {
                            flags,
                            value: self.val(value),
                            base: self.val(base_ptr),
                            offset: offset as u32,
                        },
                        Seq::empty(),
                    ),
                    Seq::empty(),
                )
            },
            StmtKind::LoadStackPtr { slot } => one(
                self.ins1(ClifOp::StackAddr { slot: slot.index }, self.ptr_ty),
            ),
            StmtKind::PtrAdd { base_ptr, offset, elem_size } => one(
                self.ptr_add(base_ptr, offset, elem_size),
            ),
            StmtKind::PtrEq(a, b) => one(
                self.ins1(
                    ClifOp::Compare {
                        predicate: IntCmp::Equal,
                        lhs: self.val(a),
                        rhs: self.val(b),
                    },
                    ClifTy::I8,
                ),
            ),
            StmtKind::HasTag { ptr, tag_bits } => one(
                self.ins1(
                    ClifOp::BinaryImm {
                        op: ClifBinary::Band,
                        lhs: self.val(ptr),
                        imm: tag_bits as u64,
                    },
                    self.ty(ptr),
                ),
            ),
            StmtKind::Untag { ptr, tag_bits } => one(
                self.ins1(
                    ClifOp::BinaryImm {
                        op: ClifBinary::Band,
                        lhs: self.val(ptr),
                        imm: (u64::MAX - tag_bits) as u64,
                    },
                    self.ty(ptr),
                ),
            ),
            StmtKind::HostCallback { func, signature, args } => {
                let (v1, list) = self.list(self.vals(ir.calls[args.index as int]));
                let (v2, callee) = v1.ins1(ClifOp::FuncAddr { func }, self.ptr_ty);
                let op = ClifOp::CallIndirect { signature, callee, args: list };
                match signature.spec_ret() {
                    Some(ty) => one(v2.ins1(op, spec_clif_ty(self.ptr_ty, ty))),
                    None => (v2.ins(op, Seq::empty()), Seq::empty()),
                }
            },
            StmtKind::VMLoadRaw { aligned_page_ptr, page_offset, width, seq_cst: _ } => {
                let (v1, ptr) = self.ptr_add(aligned_page_ptr, page_offset, 1);
                let ty = spec_int_ty(width);
                one(v1.ins1(ClifOp::AtomicLoad { ty, flags: guest_flags(), ptr }, ty))
            },
            StmtKind::VMStoreRaw { aligned_page_ptr, page_offset, value, seq_cst: _ } => {
                let (v1, ptr) = self.ptr_add(aligned_page_ptr, page_offset, 1);
                (
                    v1.ins(
                        ClifOp::AtomicStore { flags: guest_flags(), value: self.val(value), ptr },
                        Seq::empty(),
                    ),
                    Seq::empty(),
                )
            },
            StmtKind::LoadHaltReason => one(
                self.ins1(
                    ClifOp::AtomicLoad {
                        ty: ClifTy::I32,
                        flags: host_flags(false, AliasRegion::HaltReason),
                        ptr: self.val(Arg::HaltReasonPtr.spec_value()),
                    },
                    ClifTy::I32,
                ),
            ),
            StmtKind::TakeHaltReason => {
                let (v1, zero) = self.ins1(
                    ClifOp::Iconst { ty: ClifTy::I32, bits: 0 },
                    ClifTy::I32,
                );
                one(
                    v1.ins1(
                        ClifOp::AtomicRmw {
                            ty: ClifTy::I32,
                            flags: host_flags(false, AliasRegion::HaltReason),
                            op: ClifRmw::Xchg,
                            ptr: self.val(Arg::HaltReasonPtr.spec_value()),
                            value: zero,
                        },
                        ClifTy::I32,
                    ),
                )
            },
            StmtKind::SetPageDirtyFlag(ptr) => {
                let (v1, flag) = self.ins1(
                    ClifOp::Iconst { ty: ClifTy::I8, bits: PAGE_DIRTY_FLAG as u64 },
                    ClifTy::I8,
                );
                let (v2, _) = v1.ins1(
                    ClifOp::AtomicRmw {
                        ty: ClifTy::I8,
                        flags: host_flags(false, AliasRegion::PageFlags),
                        op: ClifRmw::Or,
                        ptr: self.val(ptr),
                        value: flag,
                    },
                    ClifTy::I8,
                );
                (v2, Seq::empty())
            },
            StmtKind::Safepoint => (self, Seq::empty()),
        }
    }

    /// Why a statement cannot be lowered, if it cannot.
    pub open spec fn refuses(self, ir: IrView, rvalue: StmtKind) -> Option<LoweringError> {
        if !self.all_ready(operands(ir, rvalue)) {
            Some(LoweringError::ValueNotLowered)
        } else {
            match rvalue {
                StmtKind::LoadHost { ty: _, base_ptr: _, offset, can_move: _ } => if offset
                    > 0x7fff_ffff {
                    Some(LoweringError::OffsetTooLarge)
                } else {
                    None
                },
                StmtKind::StoreHost { base_ptr: _, offset, value: _, can_move: _ } => if offset
                    > 0x7fff_ffff {
                    Some(LoweringError::OffsetTooLarge)
                } else {
                    None
                },
                StmtKind::PtrAdd { base_ptr: _, offset: _, elem_size } => if elem_size
                    > 0x7fff_ffff_ffff_ffff {
                    Some(LoweringError::ElementTooLarge)
                } else {
                    None
                },
                _ => None,
            }
        }
    }

    /// Every handle leads somewhere, and every lowered value that is no
    /// boolean has the type that its IR value asks for.
    pub open spec fn wf(self, ir: IrView) -> bool {
        &&& self.types.len() <= u64::MAX
        &&& self.lists.len() <= u64::MAX
        &&& self.current < self.blocks.len() <= u64::MAX
        &&& self.values.len() == ir.types.len()
        &&& self.block_of.len() == ir.blocks.len()
        &&& forall|v: int|
            0 <= v < self.values.len() ==> (#[trigger] self.values[v] matches Some(x) ==> x
                < self.types.len() && (ir.types[v] is Bool || self.types[x as int] == spec_clif_ty(
                self.ptr_ty,
                ir.types[v],
            )))
        &&& forall|b: int|
            0 <= b < self.block_of.len() ==> (#[trigger] self.block_of[b] matches Some(x) ==> x
                < self.blocks.len())
    }
}

impl LowerView {
    /// Remembers the lowered values of the first `n` outputs of a statement.
    pub open spec fn bind(self, outputs: Seq<u64>, vals: Seq<u64>, n: int) -> LowerView
        decreases n,
    {
        if n <= 0 {
            self
        } else {
            let before = self.bind(outputs, vals, n - 1);
            LowerView {
                values: before.values.update(outputs[n - 1] as int, Some(vals[n - 1])),
                ..before
            }
        }
    }

    /// Lowers a statement and remembers its outputs.
    pub open spec fn lower_stmt(self, ir: IrView, stmt: StmtView) -> Result<
        LowerView,
        LoweringError,
    > {
        match self.refuses(ir, stmt.rvalue) {
            Some(error) => Err(error),
            None => {
                let (v, vals) = self.lower(ir, stmt.rvalue);
                Ok(v.bind(stmt.outputs, vals, stmt.outputs.len() as int))
            },
        }
    }

    /// Lowers the first `n` statements of a block.
    pub open spec fn lower_stmts(self, ir: IrView, stmts: Seq<Stmt>, n: int) -> Result<
        LowerView,
        LoweringError,
    >
        decreases n,
    {
        if n <= 0 {
            Ok(self)
        } else {
            match self.lower_stmts(ir, stmts, n - 1) {
                Ok(v) => v.lower_stmt(ir, ir.stmts[stmts[n - 1].index as int]),
                Err(error) => Err(error),
            }
        }
    }

    /// The lowered block of an IR block.
    pub open spec fn target(self, block: Block) -> u64 {
        self.block_of[block.index as int]->0
    }

    /// Lowers the end of a block.
    pub open spec fn lower_terminator(self, ir: IrView, terminator: TerminatorView) -> Result<
        LowerView,
        LoweringError,
    > {
        match terminator {
            TerminatorView::Return => {
                let (v1, zero) = self.ins1(
                    ClifOp::Iconst { ty: ClifTy::I32, bits: 0 },
                    ClifTy::I32,
                );
                Ok(v1.ins(ClifOp::Return { value: zero }, Seq::empty()))
            },
            TerminatorView::ReturnCode(reason) => if !self.ready(reason.index) {
                Err(LoweringError::ValueNotLowered)
            } else if self.ty(reason) != ClifTy::I32 {
                Err(LoweringError::HaltReasonType)
            } else {
                Ok(self.ins(ClifOp::Return { value: self.val(reason) }, Seq::empty()))
            },
            TerminatorView::Br(jump) => if !self.all_ready(jump.parameters) {
                Err(LoweringError::ValueNotLowered)
            } else {
                let (v1, args) = self.list(self.vals(jump.parameters));
                Ok(v1.ins(ClifOp::Jump { target: self.target(jump.target), args }, Seq::empty()))
            },
            TerminatorView::BrZ(cond, zero, non_zero) => if !self.ready(cond.index)
                || !self.all_ready(non_zero.parameters) || !self.all_ready(zero.parameters) {
                Err(LoweringError::ValueNotLowered)
            } else {
                let (v1, taken) = self.ins1(
                    ClifOp::CompareImm {
                        predicate: IntCmp::NotEqual,
                        lhs: self.val(cond),
                        imm: 0,
                    },
                    ClifTy::I8,
                );
                let (v2, non_zero_args) = v1.list(self.vals(non_zero.parameters));
                let (v3, zero_args) = v2.list(self.vals(zero.parameters));
                Ok(
                    v3.ins(
                        ClifOp::Brif {
                            cond: taken,
                            non_zero: self.target(non_zero.target),
                            non_zero_args,
                            zero: self.target(zero.target),
                            zero_args,
                        },
                        Seq::empty(),
                    ),
                )
            },
        }
    }

    /// Lowers a block.
    pub open spec fn lower_block(self, ir: IrView, b: u64) -> Result<LowerView, LoweringError> {
        let data = ir.blocks[b as int];
        let start = LowerView { current: self.block_of[b as int]->0 as nat, ..self };
        match start.lower_stmts(ir, data.stmts, data.stmts.len() as int) {
            Ok(v) => v.lower_terminator(ir, data.terminator),
            Err(error) => Err(error),
        }
    }

    /// Lowers the first `n` blocks of the compile order.
    pub open spec fn lower_blocks(self, ir: IrView, order: Seq<u64>, n: int) -> Result<
        LowerView,
        LoweringError,
    >
        decreases n,
    {
        if n <= 0 {
            Ok(self)
        } else {
            match self.lower_blocks(ir, order, n - 1) {
                Ok(v) => v.lower_block(ir, order[n - 1]),
                Err(error) => Err(error),
            }
        }
    }

    /// Nothing but the stack space.
    pub open spec fn blank(ir: IrView, ptr_ty: ClifTy) -> LowerView {
        LowerView {
            types: Seq::empty(),
            blocks: Seq::empty(),
            lists: Seq::empty(),
            slots: Seq::new(ir.slots.len(), |i: int| lowered_slot(ir.slots[i])),
            values: Seq::new(ir.types.len(), |i: int| None),
            block_of: Seq::new(ir.blocks.len(), |i: int| None),
            current: 0,
            ptr_ty,
        }
    }

    /// Adds the first `n` parameters of a block to the last lowered block.
    pub open spec fn add_params(self, ir: IrView, params: Seq<u64>, n: int) -> LowerView
        decreases n,
    {
        if n <= 0 {
            self
        } else {
            let v = self.add_params(ir, params, n - 1);
            let last = v.blocks.last();
            let value = v.types.len() as u64;
            LowerView {
                types: v.types.push(spec_clif_ty(v.ptr_ty, ir.types[params[n - 1] as int])),
                values: v.values.update(params[n - 1] as int, Some(value)),
                blocks: v.blocks.update(
                    v.blocks.len() - 1,
                    ClifBlockView { params: last.params.push(value), ..last },
                ),
                ..v
            }
        }
    }

    /// Adds the lowered block of an IR block, with its parameters.
    pub open spec fn add_block(self, ir: IrView, b: u64) -> LowerView {
        let data = ir.blocks[b as int];
        let v = LowerView {
            blocks: self.blocks.push(
                ClifBlockView { params: Seq::empty(), cold: data.is_cold, insts: Seq::empty() },
            ),
            block_of: self.block_of.update(b as int, Some(self.blocks.len() as u64)),
            ..self
        };
        v.add_params(ir, data.parameters, data.parameters.len() as int)
    }

    /// Adds the first `n` blocks of the compile order.
    pub open spec fn add_blocks(self, ir: IrView, order: Seq<u64>, n: int) -> LowerView
        decreases n,
    {
        if n <= 0 {
            self
        } else {
            self.add_blocks(ir, order, n - 1).add_block(ir, order[n - 1])
        }
    }
}

/// Stack space as it is lowered.
pub open spec fn lowered_slot(slot: StackSlotData) -> ClifSlot {
    ClifSlot { size: slot.size, align_shift: spec_log2(slot.align) }
}

/// The logarithm of a power of two.
pub open spec fn spec_log2(align: u8) -> u8 {
    if align < 2 {
        0
    } else if align < 4 {
        1
    } else if align < 8 {
        2
    } else if align < 16 {
        3
    } else if align < 32 {
        4
    } else if align < 64 {
        5
    } else if align < 128 {
        6
    } else {
        7
    }
}

/// The lowered function, or why there is none: the blocks of the compile
/// order with their parameters, and then their instructions.
pub open spec fn lowered(ir: IrView, ptr_ty: ClifTy) -> Result<LowerView, LoweringError> {
    let order = ir.compile_order();
    if ir.blocks[0].parameters.len() != 6 {
        Err(LoweringError::EntryParameters)
    } else {
        LowerView::blank(ir, ptr_ty).add_blocks(ir, order, order.len() as int).lower_blocks(
            ir,
            order,
            order.len() as int,
        )
    }
}

/// One result.
pub open spec fn one(step: (LowerView, u64)) -> (LowerView, Seq<u64>) {
    (step.0, seq![step.1])
}

} // verus!
