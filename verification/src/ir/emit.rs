//! The emitters of single statements: constants, guest registers,
//! comparisons, bitwise operations, shifts and arithmetic.
use vstd::prelude::*;
use crate::ir::builder::{emitted, ExecIrBuilder};
use crate::ir::layout::{
    spec_x_reg_offset, x_reg_offset, PC_OFFSET, PSTATE_OFFSET, SP_OFFSET, X_REGISTER_COUNT,
};
use crate::ir::model::{bitwise_ty, lemma_wf, IrView};
use crate::ir::types::{
    Arg, ArithBinOp, BitwiseOp, IConst, IntCmp, IntWidth, LoadType, SSAValue, ShiftOp, StmtKind,
    TypeFull,
};

verus! {

/// Appending one statement that binds the one value `r`.
pub open spec fn emitted1(a: IrView, b: IrView, rvalue: StmtKind, r: SSAValue) -> bool {
    &&& emitted(a, b, rvalue)
    &&& r == a.next()
    &&& r.index == a.types.len()
}

/// A load of a field of the guest CPU's state.
pub open spec fn load_state(offset: usize, width: IntWidth) -> StmtKind {
    StmtKind::LoadHost {
        ty: LoadType::Int(width),
        base_ptr: Arg::ExecState.spec_value(),
        offset,
        can_move: true,
    }
}

/// A store to a field of the guest CPU's state.
pub open spec fn store_state(offset: usize, value: SSAValue) -> StmtKind {
    StmtKind::StoreHost {
        base_ptr: Arg::ExecState.spec_value(),
        offset,
        value,
        can_move: true,
    }
}

/// How far a constant shift goes: the amount is reduced modulo the width.
pub open spec fn modulo_shift(width: IntWidth, bits: u8) -> u8 {
    (bits as int % width.spec_bits()) as u8
}

/// What a constant shift without bounds emits.
pub open spec fn unbounded_shift(
    op: ShiftOp,
    value: SSAValue,
    width: IntWidth,
    bits: u8,
) -> StmtKind {
    if bits < width.spec_bits() {
        StmtKind::ShiftImm { op, value, shift: bits }
    } else if op == ShiftOp::SignExtendShr {
        StmtKind::ShiftImm { op, value, shift: (width.spec_bits() - 1) as u8 }
    } else {
        StmtKind::IConst(IConst { width, bits: 0 })
    }
}

impl ExecIrBuilder {
    /// Emits `iconst` as an integer constant of its width.
    pub fn iconst(&mut self, iconst: IConst) -> (r: SSAValue)
        requires
            old(self).wf(),
            iconst.wf(),
        ensures
            emitted1(old(self)@, final(self)@, StmtKind::IConst(iconst), r),
    {
        self.emit_1ret_stmt(StmtKind::IConst(iconst))
    }

    fn load_from_processor_state(&mut self, offset: usize, width: IntWidth) -> (r: SSAValue)
        requires
            old(self).wf(),
        ensures
            emitted1(old(self)@, final(self)@, load_state(offset, width), r),
    {
        let base_ptr = Arg::ExecState.as_ssa_value();
        proof {
            lemma_wf(self@);
            assert(self@.ty(Arg::ExecState.spec_value()) == Arg::ExecState.spec_ty());
        }
        // it is always safe to access processor state
        self.emit_1ret_stmt(
            StmtKind::LoadHost { ty: LoadType::Int(width), base_ptr, offset, can_move: true },
        )
    }

    fn store_to_processor_state(&mut self, offset: usize, value: SSAValue)
        requires
            old(self).wf(),
            old(self)@.has(value),
            old(self)@.ty(value) is Int,
        ensures
            emitted(old(self)@, final(self)@, store_state(offset, value)),
    {
        let base_ptr = Arg::ExecState.as_ssa_value();
        proof {
            lemma_wf(self@);
            assert(self@.ty(Arg::ExecState.spec_value()) == Arg::ExecState.spec_ty());
        }
        // it is always safe to access processor state
        self.emit_void_stmt(StmtKind::StoreHost { base_ptr, offset, value, can_move: true })
    }

    /// Loads the low `width` bytes of guest register `x_reg`, where `x_reg`
    /// is chosen at runtime. It must be a valid X-register index.
    pub fn load_x_reg_dyn(&mut self, x_reg: u8, width: IntWidth) -> (r: SSAValue)
        requires
            old(self).wf(),
            x_reg < X_REGISTER_COUNT,
        ensures
            emitted1(old(self)@, final(self)@, load_state(spec_x_reg_offset(x_reg), width), r),
    {
        self.load_from_processor_state(x_reg_offset(x_reg), width)
    }

    /// Loads the low `width` bytes of guest register `REG_IDX`.
    pub fn load_x_reg<const REG_IDX: u8>(&mut self, width: IntWidth) -> (r: SSAValue)
        requires
            old(self).wf(),
            REG_IDX < X_REGISTER_COUNT,
        ensures
            emitted1(old(self)@, final(self)@, load_state(spec_x_reg_offset(REG_IDX), width), r),
    {
        self.load_from_processor_state(x_reg_offset(REG_IDX), width)
    }

    /// Stores a 64-bit `value` to guest register `x_reg`, chosen at runtime.
    /// It must be a valid X-register index.
    pub fn store_x_reg_dyn(&mut self, x_reg: u8, value: SSAValue)
        requires
            old(self).wf(),
            x_reg < X_REGISTER_COUNT,
            old(self)@.is_int(value, IntWidth::W64),
        ensures
            emitted(old(self)@, final(self)@, store_state(spec_x_reg_offset(x_reg), value)),
    {
        self.store_to_processor_state(x_reg_offset(x_reg), value)
    }

    /// Stores a 64-bit `value` to guest register `REG_IDX`.
    pub fn store_x_reg<const REG_IDX: u8>(&mut self, value: SSAValue)
        requires
            old(self).wf(),
            REG_IDX < X_REGISTER_COUNT,
            old(self)@.is_int(value, IntWidth::W64),
        ensures
            emitted(old(self)@, final(self)@, store_state(spec_x_reg_offset(REG_IDX), value)),
    {
        self.store_to_processor_state(x_reg_offset(REG_IDX), value)
    }

    /// Loads the guest stack pointer as a 64-bit integer.
    pub fn load_sp(&mut self) -> (r: SSAValue)
        requires
            old(self).wf(),
        ensures
            emitted1(old(self)@, final(self)@, load_state(SP_OFFSET, IntWidth::W64), r),
    {
        self.load_from_processor_state(SP_OFFSET, IntWidth::W64)
    }

    /// Stores a 64-bit `value` to the guest stack pointer.
    pub fn store_sp(&mut self, value: SSAValue)
        requires
            old(self).wf(),
            old(self)@.is_int(value, IntWidth::W64),
        ensures
            emitted(old(self)@, final(self)@, store_state(SP_OFFSET, value)),
    {
        self.store_to_processor_state(SP_OFFSET, value)
    }

    /// Loads the guest program counter as a 64-bit integer.
    pub fn load_pc(&mut self) -> (r: SSAValue)
        requires
            old(self).wf(),
        ensures
            emitted1(old(self)@, final(self)@, load_state(PC_OFFSET, IntWidth::W64), r),
    {
        self.load_from_processor_state(PC_OFFSET, IntWidth::W64)
    }

    /// Stores a 64-bit `value` to the guest program counter.
    pub fn store_pc(&mut self, value: SSAValue)
        requires
            old(self).wf(),
            old(self)@.is_int(value, IntWidth::W64),
        ensures
            emitted(old(self)@, final(self)@, store_state(PC_OFFSET, value)),
    {
        self.store_to_processor_state(PC_OFFSET, value)
    }

    /// Loads the guest `PSTATE` flags word as a 32-bit integer.
    pub fn load_pstate(&mut self) -> (r: SSAValue)
        requires
            old(self).wf(),
        ensures
            emitted1(old(self)@, final(self)@, load_state(PSTATE_OFFSET, IntWidth::W32), r),
    {
        self.load_from_processor_state(PSTATE_OFFSET, IntWidth::W32)
    }

    /// Stores a 32-bit `value` to the guest `PSTATE` flags word.
    pub fn store_pstate(&mut self, value: SSAValue)
        requires
            old(self).wf(),
            old(self)@.is_int(value, IntWidth::W32),
        ensures
            emitted(old(self)@, final(self)@, store_state(PSTATE_OFFSET, value)),
    {
        self.store_to_processor_state(PSTATE_OFFSET, value)
    }

    /// Emits a branchless select: `if_true` when the boolean `cond` holds,
    /// otherwise `if_false`.
    ///
    /// Both arms are always evaluated and must have the same type.
    pub fn select(&mut self, cond: SSAValue, if_true: SSAValue, if_false: SSAValue) -> (r: SSAValue)
        requires
            old(self).wf(),
            old(self)@.is_bool(cond),
            old(self)@.has(if_true),
            old(self)@.has(if_false),
            old(self)@.ty(if_true) == old(self)@.ty(if_false),
        ensures
            emitted1(old(self)@, final(self)@, StmtKind::Select { cond, if_true, if_false }, r),
    {
        self.emit_1ret_stmt(StmtKind::Select { cond, if_true, if_false })
    }

    /// Compares two integers of the same width with `predicate`, producing a
    /// boolean.
    pub fn icmp(&mut self, predicate: IntCmp, lhs: SSAValue, rhs: SSAValue) -> (r: SSAValue)
        requires
            old(self).wf(),
            old(self)@.same_ints(lhs, rhs),
        ensures
            emitted1(old(self)@, final(self)@, StmtKind::IntCmp { predicate, lhs, rhs }, r),
    {
        self.emit_1ret_stmt(StmtKind::IntCmp { predicate, lhs, rhs })
    }

    /// Compares an integer against the constant `rhs` (which must have the
    /// same width) with `predicate`. Produces a boolean.
    pub fn icmp_imm(&mut self, predicate: IntCmp, lhs: SSAValue, rhs: IConst) -> (r: SSAValue)
        requires
            old(self).wf(),
            rhs.wf(),
            old(self)@.is_int(lhs, rhs.width),
        ensures
            emitted1(
                old(self)@,
                final(self)@,
                StmtKind::IntCmpImm { predicate, lhs, rhs: rhs.bits },
                r,
            ),
    {
        self.emit_1ret_stmt(StmtKind::IntCmpImm { predicate, lhs, rhs: rhs.bits })
    }

    /// Emits a bitwise OR of two booleans or two same-width integers.
    pub fn bitor(&mut self, lhs: SSAValue, rhs: SSAValue) -> (r: SSAValue)
        requires
            old(self).wf(),
            old(self)@.has(lhs),
            old(self)@.has(rhs),
            old(self)@.ty(lhs) == old(self)@.ty(rhs),
            bitwise_ty(old(self)@.ty(lhs)),
        ensures
            emitted1(
                old(self)@,
                final(self)@,
                StmtKind::Bitwise { op: BitwiseOp::Or, lhs, rhs },
                r,
            ),
    {
        self.emit_1ret_stmt(StmtKind::Bitwise { op: BitwiseOp::Or, lhs, rhs })
    }

    /// Emits a bitwise OR of an integer and a same-width constant.
    pub fn bitor_imm(&mut self, lhs: SSAValue, rhs: IConst) -> (r: SSAValue)
        requires
            old(self).wf(),
            rhs.wf(),
            old(self)@.is_int(lhs, rhs.width),
        ensures
            emitted1(
                old(self)@,
                final(self)@,
                StmtKind::BitwiseImm { op: BitwiseOp::Or, lhs, rhs: rhs.bits },
                r,
            ),
    {
        self.emit_1ret_stmt(StmtKind::BitwiseImm { op: BitwiseOp::Or, lhs, rhs: rhs.bits })
    }

    /// Emits a bitwise AND of two booleans or two same-width integers.
    pub fn bitand(&mut self, lhs: SSAValue, rhs: SSAValue) -> (r: SSAValue)
        requires
            old(self).wf(),
            old(self)@.has(lhs),
            old(self)@.has(rhs),
            old(self)@.ty(lhs) == old(self)@.ty(rhs),
            bitwise_ty(old(self)@.ty(lhs)),
        ensures
            emitted1(
                old(self)@,
                final(self)@,
                StmtKind::Bitwise { op: BitwiseOp::And, lhs, rhs },
                r,
            ),
    {
        self.emit_1ret_stmt(StmtKind::Bitwise { op: BitwiseOp::And, lhs, rhs })
    }

    /// Emits a bitwise AND of an integer and a same-width constant.
    pub fn bitand_imm(&mut self, lhs: SSAValue, rhs: IConst) -> (r: SSAValue)
        requires
            old(self).wf(),
            rhs.wf(),
            old(self)@.is_int(lhs, rhs.width),
        ensures
            emitted1(
                old(self)@,
                final(self)@,
                StmtKind::BitwiseImm { op: BitwiseOp::And, lhs, rhs: rhs.bits },
                r,
            ),
    {
        self.emit_1ret_stmt(StmtKind::BitwiseImm { op: BitwiseOp::And, lhs, rhs: rhs.bits })
    }

    /// Emits a bitwise XOR of two booleans or two same-width integers.
    pub fn bitxor(&mut self, lhs: SSAValue, rhs: SSAValue) -> (r: SSAValue)
        requires
            old(self).wf(),
            old(self)@.has(lhs),
            old(self)@.has(rhs),
            old(self)@.ty(lhs) == old(self)@.ty(rhs),
            bitwise_ty(old(self)@.ty(lhs)),
        ensures
            emitted1(
                old(self)@,
                final(self)@,
                StmtKind::Bitwise { op: BitwiseOp::Xor, lhs, rhs },
                r,
            ),
    {
        self.emit_1ret_stmt(StmtKind::Bitwise { op: BitwiseOp::Xor, lhs, rhs })
    }

    /// Emits a bitwise XOR of an integer and a same-width constant.
    pub fn bitxor_imm(&mut self, lhs: SSAValue, rhs: IConst) -> (r: SSAValue)
        requires
            old(self).wf(),
            rhs.wf(),
            old(self)@.is_int(lhs, rhs.width),
        ensures
            emitted1(
                old(self)@,
                final(self)@,
                StmtKind::BitwiseImm { op: BitwiseOp::Xor, lhs, rhs: rhs.bits },
                r,
            ),
    {
        self.emit_1ret_stmt(StmtKind::BitwiseImm { op: BitwiseOp::Xor, lhs, rhs: rhs.bits })
    }

    /// Emits a bitwise NOT of a boolean or integer `value`.
    pub fn bitnot(&mut self, value: SSAValue) -> (r: SSAValue)
        requires
            old(self).wf(),
            old(self)@.has(value),
            bitwise_ty(old(self)@.ty(value)),
        ensures
            emitted1(old(self)@, final(self)@, StmtKind::BitNot(value), r),
    {
        self.emit_1ret_stmt(StmtKind::BitNot(value))
    }

    /// Logical (zero-extending) right shift.
    ///
    /// The runtime shift amount is reduced modulo the integer width before
    /// shifting. For example, shifting a 32-bit value by `33` is equivalent
    /// to shifting by `1`.
    pub fn ushr(&mut self, value: SSAValue, shift: SSAValue) -> (r: SSAValue)
        requires
            old(self).wf(),
            old(self)@.has(value),
            old(self)@.has(shift),
            old(self)@.ty(value) is Int,
            old(self)@.ty(shift) is Int,
        ensures
            emitted1(
                old(self)@,
                final(self)@,
                StmtKind::Shift { op: ShiftOp::ZeroExtendShr, value, shift },
                r,
            ),
    {
        self.emit_1ret_stmt(StmtKind::Shift { op: ShiftOp::ZeroExtendShr, value, shift })
    }

    /// Logical (zero-extending) right shift using unbounded semantics.
    ///
    /// If the runtime shift amount is greater than or equal to the integer
    /// width, the result is `0`.
    pub fn ushr_unbounded(&mut self, value: SSAValue, shift: SSAValue) -> (r: SSAValue)
        requires
            old(self).wf(),
            old(self)@.has(value),
            old(self)@.has(shift),
            old(self)@.ty(value) is Int,
            old(self)@.ty(shift) is Int,
        ensures
            emitted1(
                old(self)@,
                final(self)@,
                StmtKind::ShiftUnbounded { op: ShiftOp::ZeroExtendShr, value, shift },
                r,
            ),
    {
        self.emit_1ret_stmt(StmtKind::ShiftUnbounded { op: ShiftOp::ZeroExtendShr, value, shift })
    }

    /// Logical (zero-extending) right shift by a constant `bits`, reduced modulo
    /// the integer width.
    pub fn ushr_imm(&mut self, value: SSAValue, bits: u8) -> (r: SSAValue)
        requires
            old(self).wf(),
            old(self)@.has(value),
            old(self)@.ty(value) is Int,
        ensures
            emitted1(
                old(self)@,
                final(self)@,
                StmtKind::ShiftImm {
                    op: ShiftOp::ZeroExtendShr,
                    value,
                    shift: modulo_shift(old(self)@.width(value), bits),
                },
                r,
            ),
    {
        self.emit_modulo_shift_imm_op(ShiftOp::ZeroExtendShr, value, bits)
    }

    /// Logical (zero-extending) right shift by a constant `bits`, which must be
    /// less than the integer width.
    pub fn ushr_exact_imm(&mut self, value: SSAValue, bits: u8) -> (r: SSAValue)
        requires
            old(self).wf(),
            old(self)@.has(value),
            old(self)@.ty(value) is Int,
            bits < old(self)@.width(value).spec_bits(),
        ensures
            emitted1(
                old(self)@,
                final(self)@,
                StmtKind::ShiftImm { op: ShiftOp::ZeroExtendShr, value, shift: bits },
                r,
            ),
    {
        self.emit_1ret_stmt(StmtKind::ShiftImm { op: ShiftOp::ZeroExtendShr, value, shift: bits })
    }

    /// Logical (zero-extending) right shift by a constant `bits` using unbounded
    /// semantics.
    ///
    /// Shifts of the full width or more produce `0`.
    pub fn ushr_unbounded_imm(&mut self, value: SSAValue, bits: u8) -> (r: SSAValue)
        requires
            old(self).wf(),
            old(self)@.has(value),
            old(self)@.ty(value) is Int,
        ensures
            emitted1(
                old(self)@,
                final(self)@,
                unbounded_shift(ShiftOp::ZeroExtendShr, value, old(self)@.width(value), bits),
                r,
            ),
    {
        self.emit_unbounded_shift_imm_op(ShiftOp::ZeroExtendShr, value, bits)
    }

    /// Arithmetic (sign-extending) right shift.
    ///
    /// The runtime shift amount is reduced modulo the integer width before
    /// shifting. For example, shifting a 32-bit value by `33` is equivalent
    /// to shifting by `1`.
    pub fn sshr(&mut self, value: SSAValue, shift: SSAValue) -> (r: SSAValue)
        requires
            old(self).wf(),
            old(self)@.has(value),
            old(self)@.has(shift),
            old(self)@.ty(value) is Int,
            old(self)@.ty(shift) is Int,
        ensures
            emitted1(
                old(self)@,
                final(self)@,
                StmtKind::Shift { op: ShiftOp::SignExtendShr, value, shift },
                r,
            ),
    {
        self.emit_1ret_stmt(StmtKind::Shift { op: ShiftOp::SignExtendShr, value, shift })
    }

    /// Arithmetic (sign-extending) right shift using unbounded semantics.
    ///
    /// If the runtime shift amount is greater than or equal to the integer
    /// width, the operation behaves as though shifted by
    /// `width - 1`, broadcasting the sign bit across the result.
    pub fn sshr_unbounded(&mut self, value: SSAValue, shift: SSAValue) -> (r: SSAValue)
        requires
            old(self).wf(),
            old(self)@.has(value),
            old(self)@.has(shift),
            old(self)@.ty(value) is Int,
            old(self)@.ty(shift) is Int,
        ensures
            emitted1(
                old(self)@,
                final(self)@,
                StmtKind::ShiftUnbounded { op: ShiftOp::SignExtendShr, value, shift },
                r,
            ),
    {
        self.emit_1ret_stmt(StmtKind::ShiftUnbounded { op: ShiftOp::SignExtendShr, value, shift })
    }

    /// Arithmetic (sign-extending) right shift by a constant `bits`, reduced modulo
    /// the integer width.
    pub fn sshr_imm(&mut self, value: SSAValue, bits: u8) -> (r: SSAValue)
        requires
            old(self).wf(),
            old(self)@.has(value),
            old(self)@.ty(value) is Int,
        ensures
            emitted1(
                old(self)@,
                final(self)@,
                StmtKind::ShiftImm {
                    op: ShiftOp::SignExtendShr,
                    value,
                    shift: modulo_shift(old(self)@.width(value), bits),
                },
                r,
            ),
    {
        self.emit_modulo_shift_imm_op(ShiftOp::SignExtendShr, value, bits)
    }

    /// Arithmetic (sign-extending) right shift by a constant `bits`, which must be
    /// less than the integer width.
    pub fn sshr_exact_imm(&mut self, value: SSAValue, bits: u8) -> (r: SSAValue)
        requires
            old(self).wf(),
            old(self)@.has(value),
            old(self)@.ty(value) is Int,
            bits < old(self)@.width(value).spec_bits(),
        ensures
            emitted1(
                old(self)@,
                final(self)@,
                StmtKind::ShiftImm { op: ShiftOp::SignExtendShr, value, shift: bits },
                r,
            ),
    {
        self.emit_1ret_stmt(StmtKind::ShiftImm { op: ShiftOp::SignExtendShr, value, shift: bits })
    }

    /// Arithmetic (sign-extending) right shift by a constant `bits` using unbounded
    /// semantics.
    ///
    /// Shifts of the full width or more behave as though shifted by
    /// `width - 1`, broadcasting the sign bit.
    pub fn sshr_unbounded_imm(&mut self, value: SSAValue, bits: u8) -> (r: SSAValue)
        requires
            old(self).wf(),
            old(self)@.has(value),
            old(self)@.ty(value) is Int,
        ensures
            emitted1(
                old(self)@,
                final(self)@,
                unbounded_shift(ShiftOp::SignExtendShr, value, old(self)@.width(value), bits),
                r,
            ),
    {
        self.emit_unbounded_shift_imm_op(ShiftOp::SignExtendShr, value, bits)
    }

    /// Left shift.
    ///
    /// The runtime shift amount is reduced modulo the integer width before
    /// shifting. For example, shifting a 32-bit value by `33` is equivalent
    /// to shifting by `1`.
    pub fn shl(&mut self, value: SSAValue, shift: SSAValue) -> (r: SSAValue)
        requires
            old(self).wf(),
            old(self)@.has(value),
            old(self)@.has(shift),
            old(self)@.ty(value) is Int,
            old(self)@.ty(shift) is Int,
        ensures
            emitted1(
                old(self)@,
                final(self)@,
                StmtKind::Shift { op: ShiftOp::Shl, value, shift },
                r,
            ),
    {
        self.emit_1ret_stmt(StmtKind::Shift { op: ShiftOp::Shl, value, shift })
    }

    /// Left shift using unbounded semantics.
    ///
    /// If the runtime shift amount is greater than or equal to the integer
    /// width, the result is `0`.
    pub fn shl_unbounded(&mut self, value: SSAValue, shift: SSAValue) -> (r: SSAValue)
        requires
            old(self).wf(),
            old(self)@.has(value),
            old(self)@.has(shift),
            old(self)@.ty(value) is Int,
            old(self)@.ty(shift) is Int,
        ensures
            emitted1(
                old(self)@,
                final(self)@,
                StmtKind::ShiftUnbounded { op: ShiftOp::Shl, value, shift },
                r,
            ),
    {
        self.emit_1ret_stmt(StmtKind::ShiftUnbounded { op: ShiftOp::Shl, value, shift })
    }

    /// Left shift by a constant `bits`, reduced modulo
    /// the integer width.
    pub fn shl_imm(&mut self, value: SSAValue, bits: u8) -> (r: SSAValue)
        requires
            old(self).wf(),
            old(self)@.has(value),
            old(self)@.ty(value) is Int,
        ensures
            emitted1(
                old(self)@,
                final(self)@,
                StmtKind::ShiftImm {
                    op: ShiftOp::Shl,
                    value,
                    shift: modulo_shift(old(self)@.width(value), bits),
                },
                r,
            ),
    {
        self.emit_modulo_shift_imm_op(ShiftOp::Shl, value, bits)
    }

    /// Left shift by a constant `bits`, which must be
    /// less than the integer width.
    pub fn shl_exact_imm(&mut self, value: SSAValue, bits: u8) -> (r: SSAValue)
        requires
            old(self).wf(),
            old(self)@.has(value),
            old(self)@.ty(value) is Int,
            bits < old(self)@.width(value).spec_bits(),
        ensures
            emitted1(
                old(self)@,
                final(self)@,
                StmtKind::ShiftImm { op: ShiftOp::Shl, value, shift: bits },
                r,
            ),
    {
        self.emit_1ret_stmt(StmtKind::ShiftImm { op: ShiftOp::Shl, value, shift: bits })
    }

    /// Left shift by a constant `bits` using unbounded
    /// semantics.
    ///
    /// Shifts of the full width or more produce `0`.
    pub fn shl_unbounded_imm(&mut self, value: SSAValue, bits: u8) -> (r: SSAValue)
        requires
            old(self).wf(),
            old(self)@.has(value),
            old(self)@.ty(value) is Int,
        ensures
            emitted1(
                old(self)@,
                final(self)@,
                unbounded_shift(ShiftOp::Shl, value, old(self)@.width(value), bits),
                r,
            ),
    {
        self.emit_unbounded_shift_imm_op(ShiftOp::Shl, value, bits)
    }

    /// The width of an integer value.
    pub fn width_of(&self, value: SSAValue) -> (r: IntWidth)
        requires
            self@.has(value),
            self@.ty(value) is Int,
        ensures
            r == self@.width(value),
    {
        assert(self.ssa_values.len() == self@.types.len());
        match self.ssa_values[value.index as usize] {
            TypeFull::Int(width) => width,
            _ => IntWidth::W64,
        }
    }

    fn emit_modulo_shift_imm_op(&mut self, op: ShiftOp, value: SSAValue, bits: u8) -> (r: SSAValue)
        requires
            old(self).wf(),
            old(self)@.has(value),
            old(self)@.ty(value) is Int,
        ensures
            emitted1(
                old(self)@,
                final(self)@,
                StmtKind::ShiftImm {
                    op,
                    value,
                    shift: modulo_shift(old(self)@.width(value), bits),
                },
                r,
            ),
    {
        let width: IntWidth = self.width_of(value);
        let shift: u8 = bits % (width.bits() as u8);
        self.emit_1ret_stmt(StmtKind::ShiftImm { op, value, shift })
    }

    fn emit_unbounded_shift_imm_op(&mut self, op: ShiftOp, value: SSAValue, bits: u8) -> (r:
        SSAValue)
        requires
            old(self).wf(),
            old(self)@.has(value),
            old(self)@.ty(value) is Int,
        ensures
            emitted1(
                old(self)@,
                final(self)@,
                unbounded_shift(op, value, old(self)@.width(value), bits),
                r,
            ),
    {
        let width: IntWidth = self.width_of(value);
        let mut shift: u8 = bits;
        if bits as u32 >= width.bits() {
            match op {
                ShiftOp::SignExtendShr => {
                    shift = (width.bits() - 1) as u8;
                },
                _ => {
                    return self.iconst(IConst::zero(width));
                },
            }
        }
        self.emit_1ret_stmt(StmtKind::ShiftImm { op, value, shift })
    }

    /// Wrapping integer add of two same-width integers.
    pub fn iadd(&mut self, lhs: SSAValue, rhs: SSAValue) -> (r: SSAValue)
        requires
            old(self).wf(),
            old(self)@.same_ints(lhs, rhs),
        ensures
            emitted1(
                old(self)@,
                final(self)@,
                StmtKind::ArithBinOp { op: ArithBinOp::Add, lhs, rhs },
                r,
            ),
    {
        self.emit_1ret_stmt(StmtKind::ArithBinOp { op: ArithBinOp::Add, lhs, rhs })
    }

    /// Wrapping integer subtract of two same-width integers.
    pub fn isub(&mut self, lhs: SSAValue, rhs: SSAValue) -> (r: SSAValue)
        requires
            old(self).wf(),
            old(self)@.same_ints(lhs, rhs),
        ensures
            emitted1(
                old(self)@,
                final(self)@,
                StmtKind::ArithBinOp { op: ArithBinOp::Sub, lhs, rhs },
                r,
            ),
    {
        self.emit_1ret_stmt(StmtKind::ArithBinOp { op: ArithBinOp::Sub, lhs, rhs })
    }

    /// Wrapping integer multiply of two same-width integers.
    pub fn imul(&mut self, lhs: SSAValue, rhs: SSAValue) -> (r: SSAValue)
        requires
            old(self).wf(),
            old(self)@.same_ints(lhs, rhs),
        ensures
            emitted1(
                old(self)@,
                final(self)@,
                StmtKind::ArithBinOp { op: ArithBinOp::Mul, lhs, rhs },
                r,
            ),
    {
        self.emit_1ret_stmt(StmtKind::ArithBinOp { op: ArithBinOp::Mul, lhs, rhs })
    }

    /// Wrapping integer negation.
    pub fn ineg(&mut self, value: SSAValue) -> (r: SSAValue)
        requires
            old(self).wf(),
            old(self)@.has(value),
            old(self)@.ty(value) is Int,
        ensures
            emitted1(old(self)@, final(self)@, StmtKind::IntNeg(value), r),
    {
        self.emit_1ret_stmt(StmtKind::IntNeg(value))
    }

    /// Emits a safepoint marking a guest-instruction boundary.
    ///
    /// The halt-check pass run by `build` inserts halt checks at a subset of
    /// safepoints, so a halt request can only be observed between guest
    /// instructions.
    pub fn add_safepoint(&mut self)
        requires
            old(self).wf(),
        ensures
            emitted(old(self)@, final(self)@, StmtKind::Safepoint),
    {
        self.emit_void_stmt(StmtKind::Safepoint)
    }
}

} // verus!
