//! The emitters that are made of several statements: flags, division,
//! guarded branches and halt checks.
use vstd::prelude::*;
use crate::ir::builder::ExecIrBuilder;
use crate::ir::emit::{load_state, store_state};
use crate::ir::layout::{
    HaltReason, PC_OFFSET, PSTATE_C, PSTATE_N, PSTATE_OFFSET, PSTATE_OTHER_MASK, PSTATE_V, PSTATE_Z,
};
use crate::ir::model::{
    bitwise_ty, lemma_leave_chosen, lemma_wf, moved_on, same_place, IrView,
};
use crate::ir::types::{
    ArithBinOp, BitwiseOp, Block, IConst, IntCmp, IntWidth, Jump, JumpView, OverflowingBinOp,
    SSAValue, StmtKind, Terminator, TerminatorView,
};

verus! {

/// An edge that passes nothing.
pub open spec fn edge(target: Block) -> JumpView {
    JumpView { parameters: Seq::empty(), target }
}

pub open spec fn constant(width: IntWidth, bits: u64) -> StmtKind {
    StmtKind::IConst(IConst { width, bits })
}

pub open spec fn either(cond: SSAValue, if_true: SSAValue, if_false: SSAValue) -> StmtKind {
    StmtKind::Select { cond, if_true, if_false }
}

pub open spec fn bits_or(lhs: SSAValue, rhs: SSAValue) -> StmtKind {
    StmtKind::Bitwise { op: BitwiseOp::Or, lhs, rhs }
}

pub open spec fn equals(lhs: SSAValue, rhs: u64) -> StmtKind {
    StmtKind::IntCmpImm { predicate: IntCmp::Equal, lhs, rhs }
}

impl IrView {
    /// Puts four booleans into the condition flags.
    pub open spec fn set_nzcv(self, n: SSAValue, z: SSAValue, c: SSAValue, v: SSAValue) -> IrView {
        let (v1, old_flags) = self.emit1(load_state(PSTATE_OFFSET, IntWidth::W32));
        let (v2, zeroed) = v1.emit1(constant(IntWidth::W32, 0));
        let (v3, n_true) = v2.emit1(constant(IntWidth::W32, PSTATE_N as u64));
        let (v4, z_true) = v3.emit1(constant(IntWidth::W32, PSTATE_Z as u64));
        let (v5, c_true) = v4.emit1(constant(IntWidth::W32, PSTATE_C as u64));
        let (v6, v_true) = v5.emit1(constant(IntWidth::W32, PSTATE_V as u64));
        let (v7, n_flag) = v6.emit1(either(n, n_true, zeroed));
        let (v8, z_flag) = v7.emit1(either(z, z_true, zeroed));
        let (v9, c_flag) = v8.emit1(either(c, c_true, zeroed));
        let (v10, v_flag) = v9.emit1(either(v, v_true, zeroed));
        let (v11, nz_flag) = v10.emit1(bits_or(n_flag, z_flag));
        let (v12, cv_flag) = v11.emit1(bits_or(c_flag, v_flag));
        let (v13, nzcv) = v12.emit1(bits_or(nz_flag, cv_flag));
        let (v14, kept) = v13.emit1(
            StmtKind::BitwiseImm {
                op: BitwiseOp::And,
                lhs: old_flags,
                rhs: PSTATE_OTHER_MASK as u64,
            },
        );
        let (v15, new_flags) = v14.emit1(bits_or(kept, nzcv));
        v15.emit(store_state(PSTATE_OFFSET, new_flags))
    }

    /// Adds or subtracts, and puts what is known of the result into the
    /// condition flags.
    pub open spec fn flag_setting(
        self,
        op: OverflowingBinOp,
        lhs: SSAValue,
        rhs: SSAValue,
    ) -> (IrView, SSAValue) {
        let (v1, value) = self.emit1(StmtKind::OverflowingBinOp { op, lhs, rhs });
        let overflow = SSAValue { index: (value.index + 1) as u64 };
        let (v2, negative) = v1.emit1(
            StmtKind::IntCmpImm { predicate: IntCmp::SignedLessThan, lhs: value, rhs: 0 },
        );
        let (v3, zero) = v2.emit1(equals(value, 0));
        let (v4, carry) = v3.emit1(
            match op {
                OverflowingBinOp::Add => StmtKind::IntCmp {
                    predicate: IntCmp::UnsignedLessThan,
                    lhs: value,
                    rhs: lhs,
                },
                OverflowingBinOp::Sub => StmtKind::IntCmp {
                    predicate: IntCmp::UnsignedGreaterThanOrEqual,
                    lhs,
                    rhs,
                },
            },
        );
        (v4.set_nzcv(negative, zero, carry, overflow), value)
    }

    /// Unsigned division that gives `0` for a divisor of `0`.
    pub open spec fn udiv(self, lhs: SSAValue, rhs: SSAValue) -> (IrView, SSAValue) {
        let width = self.width(rhs);
        let (v1, zero) = self.emit1(constant(width, 0));
        let (v2, one) = v1.emit1(constant(width, 1));
        let (v3, rhs_is_zero) = v2.emit1(equals(rhs, 0));
        let (v4, safe_rhs) = v3.emit1(either(rhs_is_zero, one, rhs));
        let (v5, quotient) = v4.emit1(
            StmtKind::ArithBinOp { op: ArithBinOp::UncheckedUDiv, lhs, rhs: safe_rhs },
        );
        v5.emit1(either(rhs_is_zero, zero, quotient))
    }

    /// Signed division that gives `0` for a divisor of `0`, and the dividend
    /// where the quotient cannot be represented.
    pub open spec fn sdiv(self, lhs: SSAValue, rhs: SSAValue) -> (IrView, SSAValue) {
        let width = self.width(rhs);
        let (v1, zero) = self.emit1(constant(width, 0));
        let (v2, one) = v1.emit1(constant(width, 1));
        let (v3, rhs_is_zero) = v2.emit1(equals(rhs, 0));
        let (v4, lhs_is_min) = v3.emit1(equals(lhs, width.sign_bit()));
        let (v5, rhs_is_minus_one) = v4.emit1(equals(rhs, width.mask()));
        let (v6, is_overflow) = v5.emit1(
            StmtKind::Bitwise { op: BitwiseOp::And, lhs: lhs_is_min, rhs: rhs_is_minus_one },
        );
        let (v7, use_safe_rhs) = v6.emit1(bits_or(rhs_is_zero, is_overflow));
        let (v8, safe_rhs) = v7.emit1(either(use_safe_rhs, one, rhs));
        let (v9, quotient) = v8.emit1(
            StmtKind::ArithBinOp { op: ArithBinOp::UncheckedSDiv, lhs, rhs: safe_rhs },
        );
        v9.emit1(either(rhs_is_zero, zero, quotient))
    }

    /// Adds a constant.
    pub open spec fn iadd_imm(self, value: SSAValue, amount: IConst) -> (IrView, SSAValue) {
        let (v1, rhs) = self.emit1(StmtKind::IConst(amount));
        v1.emit1(StmtKind::ArithBinOp { op: ArithBinOp::Add, lhs: value, rhs })
    }

    /// Moves the program counter on by one instruction.
    pub open spec fn next_insn(self) -> IrView {
        let (v1, pc) = self.emit1(load_state(PC_OFFSET, IntWidth::W64));
        let (v2, new_pc) = v1.iadd_imm(pc, IConst { width: IntWidth::W64, bits: 4 });
        v2.emit(store_state(PC_OFFSET, new_pc)).emit(StmtKind::Safepoint)
    }

    /// Goes on in a new block if the condition is as expected, and to `fail`
    /// if it is not.
    pub open spec fn assert_or_jmp_to(self, cond: SSAValue, expected: bool, fail: Block) -> (
        IrView,
        Block,
    ) {
        let (v1, success) = self.mark_cold(fail).create_block();
        let terminator = if expected {
            TerminatorView::BrZ(cond, edge(fail), edge(success))
        } else {
            TerminatorView::BrZ(cond, edge(success), edge(fail))
        };
        (v1.terminate(self.current, terminator).at(success), success)
    }

    /// Adds a cold block that returns a halt reason.
    pub open spec fn halt_block(self, reason: HaltReason) -> (IrView, Block) {
        let (v1, fail) = self.create_block();
        let (v2, value) = v1.at(fail).emit1(constant(IntWidth::W32, reason.code as u64));
        (
            v2.terminate(fail, TerminatorView::ReturnCode(value)).mark_cold(fail).at(self.current),
            fail,
        )
    }

    /// The cold block that takes the halt reason and returns it; there is one
    /// of them.
    pub open spec fn leave_block(self) -> (IrView, Block) {
        match self.leave_and_take_halt {
            Some(block) => (self, block),
            None => {
                let (v1, fail) = self.create_block();
                let (v2, reason) = v1.at(fail).mark_cold(fail).emit1(StmtKind::TakeHaltReason);
                let v3 = v2.terminate(fail, TerminatorView::ReturnCode(reason)).at(self.current);
                (IrView { leave_and_take_halt: Some(fail), ..v3 }, fail)
            },
        }
    }
}

impl ExecIrBuilder {
    /// Stores the four boolean N, Z, C, V values into the guest `PSTATE`
    /// condition flags, leaving the other `PSTATE` bits untouched.
    #[verifier::spinoff_prover]
    #[verifier::rlimit(100)]
    pub fn set_nzcv_flags(&mut self, n: SSAValue, z: SSAValue, c: SSAValue, v: SSAValue)
        requires
            old(self).wf(),
            old(self)@.is_bool(n),
            old(self)@.is_bool(z),
            old(self)@.is_bool(c),
            old(self)@.is_bool(v),
        ensures
            final(self).wf(),
            old(self)@.grows_to(final(self)@),
            final(self)@ == old(self)@.set_nzcv(n, z, c, v),
            final(self)@.current == old(self)@.current,
    {
        let old_flags = self.load_pstate();

        let zeroed = self.iconst(IConst::u32(0));

        let n_flag_true = self.iconst(IConst::u32(PSTATE_N));
        let z_flag_true = self.iconst(IConst::u32(PSTATE_Z));
        let c_flag_true = self.iconst(IConst::u32(PSTATE_C));
        let v_flag_true = self.iconst(IConst::u32(PSTATE_V));

        let n_flag = self.select(n, n_flag_true, zeroed);
        let z_flag = self.select(z, z_flag_true, zeroed);
        let c_flag = self.select(c, c_flag_true, zeroed);
        let v_flag = self.select(v, v_flag_true, zeroed);

        let nz_flag = self.bitor(n_flag, z_flag);
        let cv_flag = self.bitor(c_flag, v_flag);
        let nzcv_flags = self.bitor(nz_flag, cv_flag);

        let masked_out_flags = self.bitand_imm(old_flags, IConst::u32(PSTATE_OTHER_MASK));
        let new_flags = self.bitor(masked_out_flags, nzcv_flags);

        self.store_pstate(new_flags);
    }

    #[verifier::spinoff_prover]
    #[verifier::rlimit(60)]
    fn emit_flag_setting_binop(&mut self, op: OverflowingBinOp, lhs: SSAValue, rhs: SSAValue) -> (r:
        SSAValue)
        requires
            old(self).wf(),
            old(self)@.same_ints(lhs, rhs),
        ensures
            final(self).wf(),
            old(self)@.grows_to(final(self)@),
            (final(self)@, r) == old(self)@.flag_setting(op, lhs, rhs),
            r.index == old(self)@.types.len(),
            final(self)@.current == old(self)@.current,
    {
        let width: IntWidth = self.width_of(rhs);
        let (value, overflow) = self.emit_2ret_stmt(StmtKind::OverflowingBinOp { op, lhs, rhs });

        let zero_imm = IConst::zero(width);

        let negative = self.icmp_imm(IntCmp::SignedLessThan, value, zero_imm);
        let zero = self.icmp_imm(IntCmp::Equal, value, zero_imm);
        let carry = match op {
            OverflowingBinOp::Add => self.icmp(IntCmp::UnsignedLessThan, value, lhs),
            OverflowingBinOp::Sub => self.icmp(IntCmp::UnsignedGreaterThanOrEqual, lhs, rhs),
        };

        self.set_nzcv_flags(negative, zero, carry, overflow);

        value
    }

    /// Wrapping add that also updates the guest NZCV condition flags, like
    /// an `ADDS` instruction.
    pub fn iadds(&mut self, lhs: SSAValue, rhs: SSAValue) -> (r: SSAValue)
        requires
            old(self).wf(),
            old(self)@.same_ints(lhs, rhs),
        ensures
            final(self).wf(),
            old(self)@.grows_to(final(self)@),
            (final(self)@, r) == old(self)@.flag_setting(OverflowingBinOp::Add, lhs, rhs),
            r.index == old(self)@.types.len(),
    {
        self.emit_flag_setting_binop(OverflowingBinOp::Add, lhs, rhs)
    }

    /// Wrapping subtract that also updates the guest NZCV condition flags,
    /// like a `SUBS` instruction.
    pub fn isubs(&mut self, lhs: SSAValue, rhs: SSAValue) -> (r: SSAValue)
        requires
            old(self).wf(),
            old(self)@.same_ints(lhs, rhs),
        ensures
            final(self).wf(),
            old(self)@.grows_to(final(self)@),
            (final(self)@, r) == old(self)@.flag_setting(OverflowingBinOp::Sub, lhs, rhs),
            r.index == old(self)@.types.len(),
    {
        self.emit_flag_setting_binop(OverflowingBinOp::Sub, lhs, rhs)
    }

    /// Wrapping integer add of an integer and a same-width constant.
    pub fn iadd_imm(&mut self, value: SSAValue, amount: IConst) -> (r: SSAValue)
        requires
            old(self).wf(),
            amount.wf(),
            old(self)@.is_int(value, amount.width),
        ensures
            final(self).wf(),
            old(self)@.grows_to(final(self)@),
            (final(self)@, r) == old(self)@.iadd_imm(value, amount),
            final(self)@.is_int(r, amount.width),
            final(self)@.current == old(self)@.current,
    {
        let rhs = self.iconst(amount);
        self.iadd(value, rhs)
    }

    /// Unsigned division.
    ///
    /// It does not branch, does not panic, and does not terminate the block.
    /// If `rhs == 0`, the result is `0`.
    #[verifier::spinoff_prover]
    #[verifier::rlimit(60)]
    pub fn udiv(&mut self, lhs: SSAValue, rhs: SSAValue) -> (r: SSAValue)
        requires
            old(self).wf(),
            old(self)@.same_ints(lhs, rhs),
        ensures
            final(self).wf(),
            old(self)@.grows_to(final(self)@),
            (final(self)@, r) == old(self)@.udiv(lhs, rhs),
            final(self)@.is_int(r, old(self)@.width(lhs)),
            final(self)@.current == old(self)@.current,
    {
        let width: IntWidth = self.width_of(rhs);
        let zero_imm = IConst::zero(width);

        let zero = self.iconst(zero_imm);
        let one = self.iconst(IConst::one(width));

        let rhs_is_zero = self.icmp_imm(IntCmp::Equal, rhs, zero_imm);

        // `select` is not lazy, so make the divisor safe before dividing.
        let safe_rhs = self.select(rhs_is_zero, one, rhs);

        let quotient = self.emit_1ret_stmt(
            StmtKind::ArithBinOp { op: ArithBinOp::UncheckedUDiv, lhs, rhs: safe_rhs },
        );

        self.select(rhs_is_zero, zero, quotient)
    }

    /// Signed division.
    ///
    /// It does not branch, does not panic, does not terminate the block and
    /// does not update condition flags. The result is the signed quotient of
    /// `lhs / rhs`, rounded toward zero. If `rhs == 0`, the result is `0`. If
    /// the signed quotient is not representable, i.e. `INT_MIN / -1`, the
    /// result is `INT_MIN`.
    #[verifier::spinoff_prover]
    #[verifier::rlimit(60)]
    pub fn sdiv(&mut self, lhs: SSAValue, rhs: SSAValue) -> (r: SSAValue)
        requires
            old(self).wf(),
            old(self)@.same_ints(lhs, rhs),
        ensures
            final(self).wf(),
            old(self)@.grows_to(final(self)@),
            (final(self)@, r) == old(self)@.sdiv(lhs, rhs),
            final(self)@.is_int(r, old(self)@.width(lhs)),
            final(self)@.current == old(self)@.current,
    {
        let width: IntWidth = self.width_of(rhs);
        let zero_imm = IConst::zero(width);
        let int_min_imm = IConst::min_negative(width);
        let negative_one_imm = IConst::negative_one(width);

        let zero = self.iconst(zero_imm);
        let one = self.iconst(IConst::one(width));

        let rhs_is_zero = self.icmp_imm(IntCmp::Equal, rhs, zero_imm);
        let lhs_is_min = self.icmp_imm(IntCmp::Equal, lhs, int_min_imm);
        let rhs_is_minus_one = self.icmp_imm(IntCmp::Equal, rhs, negative_one_imm);

        let is_overflow = self.bitand(lhs_is_min, rhs_is_minus_one);

        // Avoid both cases in which the division has no meaning.
        let use_safe_rhs = self.bitor(rhs_is_zero, is_overflow);

        // INT_MIN / -1 should produce INT_MIN: the divisor is 1 there, so the
        // quotient is already the dividend.
        let safe_rhs = self.select(use_safe_rhs, one, rhs);

        let quotient = self.emit_1ret_stmt(
            StmtKind::ArithBinOp { op: ArithBinOp::UncheckedSDiv, lhs, rhs: safe_rhs },
        );

        // rhs == 0 should produce 0.
        self.select(rhs_is_zero, zero, quotient)
    }

    /// Shorthand to both increment `pc` and insert a safepoint.
    pub fn next_insn(&mut self)
        requires
            old(self).wf(),
        ensures
            final(self).wf(),
            old(self)@.grows_to(final(self)@),
            final(self)@ == old(self)@.next_insn(),
    {
        let pc = self.load_pc();
        let new_pc = self.iadd_imm(pc, IConst::u64(4));
        self.store_pc(new_pc);
        self.add_safepoint()
    }

    /// Terminates the current block with a branch to `fail` unless `cond`
    /// equals `expected`, otherwise falling through to a freshly created
    /// success block.
    ///
    /// `fail` is marked cold. The builder is switched to the success block,
    /// which is also returned.
    pub fn assert_or_jmp_to(&mut self, cond: SSAValue, expected: bool, fail: Block) -> (r: Block)
        requires
            old(self).wf(),
            old(self)@.has(cond),
            bitwise_ty(old(self)@.ty(cond)),
            0 < fail.index < old(self)@.blocks.len(),
            !old(self)@.block(old(self)@.current).terminated,
        ensures
            moved_on(old(self)@, final(self)@),
            final(self)@.types == old(self)@.types,
            final(self)@.current == r,
            (final(self)@, r) == old(self)@.assert_or_jmp_to(cond, expected, fail),
            r.index == old(self)@.blocks.len(),
            final(self)@.blocks.len() == old(self)@.blocks.len() + 1,
    {
        proof {
            lemma_wf(self@);
        }
        self.mark_block_bold(fail);
        let success = self.create_block();
        if expected {
            self.terminate(Terminator::BrZ(cond, Jump::to(fail), Jump::to(success)));
        } else {
            self.terminate(Terminator::BrZ(cond, Jump::to(success), Jump::to(fail)));
        }
        self.switch_to(success);
        success
    }

    /// Adds a cold block that returns `reason`.
    pub fn make_halt_block(&mut self, reason: HaltReason) -> (r: Block)
        requires
            old(self).wf(),
        ensures
            same_place(old(self)@, final(self)@),
            (final(self)@, r) == old(self)@.halt_block(reason),
            r.index == old(self)@.blocks.len(),
            final(self)@.blocks.len() == old(self)@.blocks.len() + 1,
    {
        proof {
            lemma_wf(self@);
        }
        let original = self.current_block();
        let fail = self.create_block();
        self.switch_to(fail);
        let value = self.iconst(IConst::u32(reason.code));
        self.terminate(Terminator::ReturnCode(value));
        self.mark_current_block_cold();
        self.switch_to(original);
        fail
    }

    /// The cold block that takes the halt reason and returns it.
    pub fn get_leave_and_take_halt(&mut self) -> (r: Block)
        requires
            old(self).wf(),
        ensures
            same_place(old(self)@, final(self)@),
            (final(self)@, r) == old(self)@.leave_block(),
            final(self)@.leave_and_take_halt == Some(r),
            final(self)@.leaves(r),
    {
        proof {
            lemma_wf(self@);
        }
        match self.leave_and_take_halt {
            Some(block) => {
                assert(self@.leaves(block));
                block
            },
            None => {
                let original = self.current_block();
                let fail = self.create_block();
                self.switch_to(fail);
                self.mark_current_block_cold();
                let reason = self.emit_1ret_stmt(StmtKind::TakeHaltReason);
                self.terminate(Terminator::ReturnCode(reason));
                self.switch_to(original);
                let ghost before = self@;
                self.leave_and_take_halt = Some(fail);
                proof {
                    reveal(IrView::emit);
                    assert(self@ =~= old(self)@.leave_block().0);
                    let taking = self@.stmts.last();
                    assert(taking.outputs =~= seq![reason.index]);
                    assert(self@.leaves(fail));
                    lemma_leave_chosen(before, self@);
                }
                fail
            },
        }
    }
}

} // verus!
