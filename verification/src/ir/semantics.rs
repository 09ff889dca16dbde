//! What statements compute.
//!
//! The meaning covers integers, booleans and the guest CPU's state; it leaves
//! out the memory of the host, which compiled code shares with others.
use vstd::prelude::*;
use vstd::arithmetic::power2::pow2;
use crate::ir::model::{IrView, StmtView};
use crate::ir::types::{
    Arg, ArithBinOp, BitwiseOp, IntCmp, IntWidth, LoadType, OverflowingBinOp, SSAValue, ShiftOp,
    StmtKind,
};

verus! {

/// What a value holds at run time. Integers are zero-extended.
pub enum Val {
    Int(u64),
    Bool(bool),
}

/// The values that have been computed, and the guest CPU's state: a number
/// for each field, by its offset.
#[verifier::ext_equal]
pub struct Machine {
    pub env: Map<u64, Val>,
    pub state: Map<usize, u64>,
}

impl IntWidth {
    /// The number of values that the width has.
    pub open spec fn modulus(self) -> int {
        self.mask() + 1
    }

    /// The value of the width that is congruent to `x`.
    pub open spec fn wrap(self, x: int) -> u64 {
        (x % self.modulus()) as u64
    }

    /// A value read as a two's complement number.
    pub open spec fn signed(self, x: u64) -> int {
        if x >= self.sign_bit() {
            x - self.modulus()
        } else {
            x as int
        }
    }
}

/// Division that rounds toward zero.
pub open spec fn truncated_div(a: int, b: int) -> int
    recommends
        b != 0,
{
    let magnitude = (if a < 0 {
        -a
    } else {
        a
    }) / (if b < 0 {
        -b
    } else {
        b
    });
    if (a < 0) == (b < 0) {
        magnitude
    } else {
        -magnitude
    }
}

/// What an arithmetic operation computes; nothing, where it has no meaning.
pub open spec fn arith(op: ArithBinOp, width: IntWidth, a: u64, b: u64) -> Option<u64> {
    match op {
        ArithBinOp::Add => Some(width.wrap(a + b)),
        ArithBinOp::Sub => Some(width.wrap(a - b)),
        ArithBinOp::Mul => Some(width.wrap(a * b)),
        ArithBinOp::UncheckedUDiv => if b == 0 {
            None
        } else {
            Some((a as int / b as int) as u64)
        },
        ArithBinOp::UncheckedSDiv => if b == 0 || (a == width.sign_bit() && b == width.mask()) {
            None
        } else {
            Some(width.wrap(truncated_div(width.signed(a), width.signed(b))))
        },
    }
}

/// The result of an operation that also tells whether it overflows.
pub open spec fn overflowing(op: OverflowingBinOp, width: IntWidth, a: u64, b: u64) -> u64 {
    match op {
        OverflowingBinOp::Add => width.wrap(a + b),
        OverflowingBinOp::Sub => width.wrap(a - b),
    }
}

/// Whether the signed result does not fit the width.
pub open spec fn overflows(op: OverflowingBinOp, width: IntWidth, a: u64, b: u64) -> bool {
    let exact = match op {
        OverflowingBinOp::Add => width.signed(a) + width.signed(b),
        OverflowingBinOp::Sub => width.signed(a) - width.signed(b),
    };
    exact < -(width.sign_bit() as int) || exact >= width.sign_bit()
}

pub open spec fn compare(predicate: IntCmp, width: IntWidth, a: u64, b: u64) -> bool {
    match predicate {
        IntCmp::Equal => a == b,
        IntCmp::NotEqual => a != b,
        IntCmp::SignedLessThan => width.signed(a) < width.signed(b),
        IntCmp::SignedLessThanOrEqual => width.signed(a) <= width.signed(b),
        IntCmp::SignedGreaterThan => width.signed(a) > width.signed(b),
        IntCmp::SignedGreaterThanOrEqual => width.signed(a) >= width.signed(b),
        IntCmp::UnsignedLessThan => a < b,
        IntCmp::UnsignedLessThanOrEqual => a <= b,
        IntCmp::UnsignedGreaterThan => a > b,
        IntCmp::UnsignedGreaterThanOrEqual => a >= b,
    }
}

pub open spec fn bitwise(op: BitwiseOp, a: u64, b: u64) -> u64 {
    match op {
        BitwiseOp::And => a & b,
        BitwiseOp::Or => a | b,
        BitwiseOp::Xor => a ^ b,
    }
}

pub open spec fn bitwise_bool(op: BitwiseOp, a: bool, b: bool) -> bool {
    match op {
        BitwiseOp::And => a && b,
        BitwiseOp::Or => a || b,
        BitwiseOp::Xor => a != b,
    }
}

/// A shift by less than the width.
pub open spec fn shifted(op: ShiftOp, width: IntWidth, a: u64, by: int) -> u64 {
    let scale = pow2(by as nat) as int;
    match op {
        ShiftOp::Shl => width.wrap(a * scale),
        ShiftOp::ZeroExtendShr => (a as int / scale) as u64,
        ShiftOp::SignExtendShr => width.wrap(width.signed(a) / scale),
    }
}

/// A shift whose amount is reduced modulo the width.
pub open spec fn shifted_modulo(op: ShiftOp, width: IntWidth, a: u64, by: int) -> u64 {
    shifted(op, width, a, by % width.spec_bits())
}

/// A shift by any amount.
pub open spec fn shifted_unbounded(op: ShiftOp, width: IntWidth, a: u64, by: int) -> u64 {
    if by < width.spec_bits() {
        shifted(op, width, a, by)
    } else if op == ShiftOp::SignExtendShr {
        shifted(op, width, a, width.spec_bits() - 1)
    } else {
        0
    }
}

impl Machine {
    pub open spec fn number(self, value: SSAValue) -> u64 {
        self.env[value.index]->Int_0
    }

    pub open spec fn truth(self, value: SSAValue) -> bool {
        self.env[value.index]->Bool_0
    }

    pub open spec fn has_int(self, value: SSAValue) -> bool {
        self.env.contains_key(value.index) && self.env[value.index] is Int
    }

    pub open spec fn has_bool(self, value: SSAValue) -> bool {
        self.env.contains_key(value.index) && self.env[value.index] is Bool
    }
}

impl IrView {
    /// The value that a statement with one output computes, if it has a
    /// meaning here.
    pub open spec fn eval(self, rvalue: StmtKind, m: Machine) -> Option<Val> {
        match rvalue {
            StmtKind::IConst(constant) => Some(Val::Int(constant.bits)),
            StmtKind::ArithBinOp { op, lhs, rhs } => if m.has_int(lhs) && m.has_int(rhs) {
                match arith(op, self.width(lhs), m.number(lhs), m.number(rhs)) {
                    Some(result) => Some(Val::Int(result)),
                    None => None,
                }
            } else {
                None
            },
            StmtKind::IntNeg(value) => if m.has_int(value) {
                Some(Val::Int(self.width(value).wrap(-(m.number(value) as int))))
            } else {
                None
            },
            StmtKind::OverflowingBinOp { op, lhs, rhs } => if m.has_int(lhs) && m.has_int(rhs) {
                Some(Val::Int(overflowing(op, self.width(lhs), m.number(lhs), m.number(rhs))))
            } else {
                None
            },
            StmtKind::IntCmp { predicate, lhs, rhs } => if m.has_int(lhs) && m.has_int(rhs) {
                Some(Val::Bool(compare(predicate, self.width(lhs), m.number(lhs), m.number(rhs))))
            } else {
                None
            },
            StmtKind::IntCmpImm { predicate, lhs, rhs } => if m.has_int(lhs) {
                Some(Val::Bool(compare(predicate, self.width(lhs), m.number(lhs), rhs)))
            } else {
                None
            },
            StmtKind::Select { cond, if_true, if_false } => if m.has_bool(cond)
                && m.env.contains_key(if_true.index) && m.env.contains_key(if_false.index) {
                Some(
                    if m.truth(cond) {
                        m.env[if_true.index]
                    } else {
                        m.env[if_false.index]
                    },
                )
            } else {
                None
            },
            StmtKind::Bitwise { op, lhs, rhs } => if m.has_int(lhs) && m.has_int(rhs) {
                Some(Val::Int(bitwise(op, m.number(lhs), m.number(rhs))))
            } else if m.has_bool(lhs) && m.has_bool(rhs) {
                Some(Val::Bool(bitwise_bool(op, m.truth(lhs), m.truth(rhs))))
            } else {
                None
            },
            StmtKind::BitwiseImm { op, lhs, rhs } => if m.has_int(lhs) {
                Some(Val::Int(bitwise(op, m.number(lhs), rhs)))
            } else {
                None
            },
            StmtKind::BitNot(value) => if m.has_int(value) {
                Some(Val::Int((self.width(value).mask() - m.number(value)) as u64))
            } else if m.has_bool(value) {
                Some(Val::Bool(!m.truth(value)))
            } else {
                None
            },
            StmtKind::Shift { op, value, shift } => if m.has_int(value) && m.has_int(shift) {
                Some(
                    Val::Int(
                        shifted_modulo(
                            op,
                            self.width(value),
                            m.number(value),
                            m.number(shift) as int,
                        ),
                    ),
                )
            } else {
                None
            },
            StmtKind::ShiftUnbounded { op, value, shift } => if m.has_int(value) && m.has_int(
                shift,
            ) {
                Some(
                    Val::Int(
                        shifted_unbounded(
                            op,
                            self.width(value),
                            m.number(value),
                            m.number(shift) as int,
                        ),
                    ),
                )
            } else {
                None
            },
            StmtKind::ShiftImm { op, value, shift } => if m.has_int(value) {
                Some(Val::Int(shifted(op, self.width(value), m.number(value), shift as int)))
            } else {
                None
            },
            StmtKind::LoadHost { ty, base_ptr, offset, can_move: _ } => match ty {
                LoadType::Int(width) => if base_ptr == Arg::ExecState.spec_value()
                    && m.state.contains_key(offset) {
                    Some(Val::Int(width.wrap(m.state[offset] as int)))
                } else {
                    None
                },
                LoadType::HostPtr(_) => None,
            },
            _ => None,
        }
    }

    /// What a statement does to the machine, if it has a meaning here.
    pub open spec fn step(self, stmt: StmtView, m: Machine) -> Option<Machine> {
        match stmt.rvalue {
            StmtKind::StoreHost { base_ptr, offset, value, can_move: _ } => if base_ptr
                == Arg::ExecState.spec_value() && m.has_int(value) && m.state.contains_key(offset) {
                Some(Machine { state: m.state.insert(offset, m.number(value)), ..m })
            } else {
                None
            },
            StmtKind::Safepoint => Some(m),
            StmtKind::OverflowingBinOp { op, lhs, rhs } => if m.has_int(lhs) && m.has_int(rhs) {
                let width = self.width(lhs);
                let value = Val::Int(overflowing(op, width, m.number(lhs), m.number(rhs)));
                let flag = Val::Bool(overflows(op, width, m.number(lhs), m.number(rhs)));
                Some(
                    Machine {
                        env: m.env.insert(stmt.outputs[0], value).insert(stmt.outputs[1], flag),
                        ..m
                    },
                )
            } else {
                None
            },
            _ => match self.eval(stmt.rvalue, m) {
                Some(value) => Some(Machine { env: m.env.insert(stmt.outputs[0], value), ..m }),
                None => None,
            },
        }
    }

    /// Runs the statements from `from` up to `to`.
    pub open spec fn run(self, from: int, to: int, m: Machine) -> Option<Machine>
        decreases to - from,
    {
        if from >= to {
            Some(m)
        } else {
            match self.run(from, to - 1, m) {
                Some(before) => self.step(self.stmts[to - 1], before),
                None => None,
            }
        }
    }

    /// Runs the statements that this IR has and `before` has not.
    pub open spec fn run_new(self, before: IrView, m: Machine) -> Option<Machine> {
        self.run(before.stmts.len() as int, self.stmts.len() as int, m)
    }
}

/// Running what has been appended runs what stood there first, and then the
/// new statement.
pub proof fn lemma_run_emit(before: IrView, v: IrView, rvalue: StmtKind, m: Machine)
    requires
        before.stmts.len() <= v.stmts.len(),
        v.stmts.len() < u64::MAX,
        v.types.len() + 2 <= u64::MAX,
        v.typed_run(before),
        v.typed(rvalue),
    ensures
        v.emit(rvalue).run_new(before, m) == (match v.run_new(before, m) {
            Some(mid) => v.step(
                StmtView {
                    outputs: Seq::new(
                        v.output_types(rvalue).len(),
                        |i: int| (v.types.len() + i) as u64,
                    ),
                    rvalue,
                },
                mid,
            ),
            None => None,
        }),
        v.emit(rvalue).types == v.types + v.output_types(rvalue),
        v.emit(rvalue).stmts.len() == v.stmts.len() + 1,
        v.emit(rvalue).typed_run(before),
{
    reveal(IrView::emit);
    let w = v.emit(rvalue);
    let n = v.stmts.len() as int;
    lemma_run_grows(v, w, before.stmts.len() as int, n, m);
    assert(w.stmts[n].rvalue == rvalue);
    assert(w.run_new(before, m) == (match w.run(before.stmts.len() as int, n, m) {
        Some(mid) => w.step(w.stmts[n], mid),
        None => None,
    }));
    assert forall|s: int| before.stmts.len() <= s < w.stmts.len() implies w.typed(
        (#[trigger] w.stmts[s]).rvalue,
    ) by {
        if s < n {
            assert(v.typed(v.stmts[s].rvalue));
        }
    }
}

impl IrView {
    /// The statements that this IR has and `before` has not are typed.
    pub open spec fn typed_run(self, before: IrView) -> bool {
        forall|s: int|
            before.stmts.len() <= s < self.stmts.len() ==> self.typed(
                (#[trigger] self.stmts[s]).rvalue,
            )
    }
}

/// What statements do depends on no later statement.
proof fn lemma_run_grows(v: IrView, w: IrView, from: int, to: int, m: Machine)
    requires
        v.types.is_prefix_of(w.types),
        v.stmts.is_prefix_of(w.stmts),
        0 <= from <= to <= v.stmts.len(),
        forall|s: int| from <= s < to ==> v.typed((#[trigger] v.stmts[s]).rvalue),
    ensures
        w.run(from, to, m) == v.run(from, to, m),
    decreases to - from,
{
    if from < to {
        lemma_run_grows(v, w, from, to - 1, m);
        assert(w.stmts[to - 1] == v.stmts[to - 1]);
        assert(v.typed(v.stmts[to - 1].rvalue));
    }
}

} // verus!
