//! What the single emitters compute: each law runs the code that a call
//! appended and says which number or truth value it leaves behind.
use vstd::prelude::*;
use vstd::arithmetic::power2::{lemma2_to64, lemma_pow2_adds, lemma_pow2_pos, pow2};
use crate::ir::builder::ExecIrBuilder;
use crate::ir::emit::{emitted1, modulo_shift, unbounded_shift};
use crate::ir::model::{lemma_wf, IrView};
use crate::ir::register_laws::has_place;
use crate::ir::semantics::{lemma_run_emit, Machine, Val};
use crate::ir::types::{
    ArithBinOp, BitwiseOp, IConst, IntCmp, IntWidth, SSAValue, ShiftOp, StmtKind, TypeFull,
};

verus! {

/// How many numbers an integer of the width can be.
pub open spec fn numbers(width: IntWidth) -> int {
    match width {
        IntWidth::W8 => 0x100,
        IntWidth::W16 => 0x1_0000,
        IntWidth::W32 => 0x1_0000_0000,
        IntWidth::W64 => 0x1_0000_0000_0000_0000,
    }
}

/// How many bits an integer of the width has.
pub open spec fn bit_count(width: IntWidth) -> int {
    match width {
        IntWidth::W8 => 8,
        IntWidth::W16 => 16,
        IntWidth::W32 => 32,
        IntWidth::W64 => 64,
    }
}

/// A number of the width, read as a signed one.
pub open spec fn as_signed(width: IntWidth, x: u64) -> int {
    if 2 * x >= numbers(width) {
        x - numbers(width)
    } else {
        x as int
    }
}

/// `value` is an integer of the width, and the machine has a number for it.
pub open spec fn known_int(builder: ExecIrBuilder, m: Machine, value: SSAValue, width: IntWidth) -> bool {
    &&& builder@.is_int(value, width)
    &&& m.env.contains_key(value.index)
    &&& m.env[value.index] is Int
    &&& m.env[value.index]->Int_0 < numbers(width)
}

/// `value` is a truth value that the machine has.
pub open spec fn known_bool(builder: ExecIrBuilder, m: Machine, value: SSAValue) -> bool {
    &&& builder@.is_bool(value)
    &&& m.env.contains_key(value.index)
    &&& m.env[value.index] is Bool
}

/// The code that stands in `after` and not in `before` gives the new value `r`
/// what `val` is, and changes nothing else.
pub open spec fn computes(
    before: ExecIrBuilder,
    after: ExecIrBuilder,
    m: Machine,
    r: SSAValue,
    ty: TypeFull,
    val: Val,
) -> bool {
    &&& after@.run_new(before@, m) == Some(Machine { env: m.env.insert(r.index, val), ..m })
    &&& r.index >= before@.types.len()
    &&& r.index < after@.types.len()
    &&& after@.types[r.index as int] == ty
}

proof fn lemma_computed(v: IrView, w: IrView, rvalue: StmtKind, r: SSAValue, m: Machine)
    requires
        v.wf(),
        v.types.len() + 2 <= u64::MAX,
        v.stmts.len() < u64::MAX,
        emitted1(v, w, rvalue, r),
        v.typed(rvalue),
        v.output_types(rvalue).len() == 1,
        !(rvalue is OverflowingBinOp),
        !(rvalue is StoreHost),
        !(rvalue is Safepoint),
        v.eval(rvalue, m) is Some,
    ensures
        w.run_new(v, m) == Some(
            Machine { env: m.env.insert(r.index, v.eval(rvalue, m)->0), ..m },
        ),
        r.index == v.types.len(),
        w.types.len() == v.types.len() + 1,
        w.types[r.index as int] == v.output_types(rvalue)[0],
{
    lemma_wf(v);
    lemma_run_emit(v, v, rvalue, m);
}

/// Addition, subtraction, multiplication and negation wrap around at the number
/// of values that the width has.
pub proof fn law_arithmetic(
    builder: &mut ExecIrBuilder,
    lhs: SSAValue,
    rhs: SSAValue,
    width: IntWidth,
    r: SSAValue,
    m: Machine,
)
    requires
        old(builder).wf(),
        has_place(*old(builder)),
        known_int(*old(builder), m, lhs, width),
        known_int(*old(builder), m, rhs, width),
    ensures
        call_ensures(ExecIrBuilder::iadd, (builder, lhs, rhs), r) ==> computes(
            *old(builder),
            *final(builder),
            m,
            r,
            TypeFull::Int(width),
            Val::Int(((m.env[lhs.index]->Int_0 + m.env[rhs.index]->Int_0) % numbers(width)) as u64),
        ),
        call_ensures(ExecIrBuilder::isub, (builder, lhs, rhs), r) ==> computes(
            *old(builder),
            *final(builder),
            m,
            r,
            TypeFull::Int(width),
            Val::Int(((m.env[lhs.index]->Int_0 - m.env[rhs.index]->Int_0) % numbers(width)) as u64),
        ),
        call_ensures(ExecIrBuilder::imul, (builder, lhs, rhs), r) ==> computes(
            *old(builder),
            *final(builder),
            m,
            r,
            TypeFull::Int(width),
            Val::Int(((m.env[lhs.index]->Int_0 * m.env[rhs.index]->Int_0) % numbers(width)) as u64),
        ),
        call_ensures(ExecIrBuilder::ineg, (builder, lhs), r) ==> computes(
            *old(builder),
            *final(builder),
            m,
            r,
            TypeFull::Int(width),
            Val::Int(((numbers(width) - m.env[lhs.index]->Int_0) % numbers(width)) as u64),
        ),
{
    let v = old(builder)@;
    let w = final(builder)@;
    assert(width.modulus() == numbers(width));
    if call_ensures(ExecIrBuilder::iadd, (builder, lhs, rhs), r) {
        lemma_computed(v, w, StmtKind::ArithBinOp { op: ArithBinOp::Add, lhs, rhs }, r, m);
    }
    if call_ensures(ExecIrBuilder::isub, (builder, lhs, rhs), r) {
        lemma_computed(v, w, StmtKind::ArithBinOp { op: ArithBinOp::Sub, lhs, rhs }, r, m);
    }
    if call_ensures(ExecIrBuilder::imul, (builder, lhs, rhs), r) {
        lemma_computed(v, w, StmtKind::ArithBinOp { op: ArithBinOp::Mul, lhs, rhs }, r, m);
    }
    if call_ensures(ExecIrBuilder::ineg, (builder, lhs), r) {
        vstd::arithmetic::div_mod::lemma_mod_add_multiples_vanish(-(m.env[lhs.index]->Int_0 as int), numbers(width));
        lemma_computed(v, w, StmtKind::IntNeg(lhs), r, m);
    }
}

/// The bitwise operations work bit by bit on numbers.
pub proof fn law_bitwise(
    builder: &mut ExecIrBuilder,
    lhs: SSAValue,
    rhs: SSAValue,
    width: IntWidth,
    r: SSAValue,
    m: Machine,
)
    requires
        old(builder).wf(),
        has_place(*old(builder)),
        known_int(*old(builder), m, lhs, width),
        known_int(*old(builder), m, rhs, width),
    ensures
        call_ensures(ExecIrBuilder::bitor, (builder, lhs, rhs), r) ==> computes(
            *old(builder),
            *final(builder),
            m,
            r,
            TypeFull::Int(width),
            Val::Int(m.env[lhs.index]->Int_0 | m.env[rhs.index]->Int_0),
        ),
        call_ensures(ExecIrBuilder::bitand, (builder, lhs, rhs), r) ==> computes(
            *old(builder),
            *final(builder),
            m,
            r,
            TypeFull::Int(width),
            Val::Int(m.env[lhs.index]->Int_0 & m.env[rhs.index]->Int_0),
        ),
        call_ensures(ExecIrBuilder::bitxor, (builder, lhs, rhs), r) ==> computes(
            *old(builder),
            *final(builder),
            m,
            r,
            TypeFull::Int(width),
            Val::Int(m.env[lhs.index]->Int_0 ^ m.env[rhs.index]->Int_0),
        ),
        call_ensures(ExecIrBuilder::bitnot, (builder, lhs), r) ==> computes(
            *old(builder),
            *final(builder),
            m,
            r,
            TypeFull::Int(width),
            Val::Int((numbers(width) - 1 - m.env[lhs.index]->Int_0) as u64),
        ),
{
    let v = old(builder)@;
    let w = final(builder)@;
    if call_ensures(ExecIrBuilder::bitor, (builder, lhs, rhs), r) {
        lemma_computed(v, w, StmtKind::Bitwise { op: BitwiseOp::Or, lhs, rhs }, r, m);
    }
    if call_ensures(ExecIrBuilder::bitand, (builder, lhs, rhs), r) {
        lemma_computed(v, w, StmtKind::Bitwise { op: BitwiseOp::And, lhs, rhs }, r, m);
    }
    if call_ensures(ExecIrBuilder::bitxor, (builder, lhs, rhs), r) {
        lemma_computed(v, w, StmtKind::Bitwise { op: BitwiseOp::Xor, lhs, rhs }, r, m);
    }
    if call_ensures(ExecIrBuilder::bitnot, (builder, lhs), r) {
        lemma_computed(v, w, StmtKind::BitNot(lhs), r, m);
    }
}

/// The bitwise operations with a constant work bit by bit.
pub proof fn law_bitwise_imm(
    builder: &mut ExecIrBuilder,
    lhs: SSAValue,
    rhs: IConst,
    r: SSAValue,
    m: Machine,
)
    requires
        old(builder).wf(),
        has_place(*old(builder)),
        known_int(*old(builder), m, lhs, rhs.width),
        rhs.bits < numbers(rhs.width),
    ensures
        call_ensures(ExecIrBuilder::bitor_imm, (builder, lhs, rhs), r) ==> computes(
            *old(builder),
            *final(builder),
            m,
            r,
            TypeFull::Int(rhs.width),
            Val::Int(m.env[lhs.index]->Int_0 | rhs.bits),
        ),
        call_ensures(ExecIrBuilder::bitand_imm, (builder, lhs, rhs), r) ==> computes(
            *old(builder),
            *final(builder),
            m,
            r,
            TypeFull::Int(rhs.width),
            Val::Int(m.env[lhs.index]->Int_0 & rhs.bits),
        ),
        call_ensures(ExecIrBuilder::bitxor_imm, (builder, lhs, rhs), r) ==> computes(
            *old(builder),
            *final(builder),
            m,
            r,
            TypeFull::Int(rhs.width),
            Val::Int(m.env[lhs.index]->Int_0 ^ rhs.bits),
        ),
{
    let v = old(builder)@;
    let w = final(builder)@;
    if call_ensures(ExecIrBuilder::bitor_imm, (builder, lhs, rhs), r) {
        lemma_computed(v, w, StmtKind::BitwiseImm { op: BitwiseOp::Or, lhs, rhs: rhs.bits }, r, m);
    }
    if call_ensures(ExecIrBuilder::bitand_imm, (builder, lhs, rhs), r) {
        lemma_computed(v, w, StmtKind::BitwiseImm { op: BitwiseOp::And, lhs, rhs: rhs.bits }, r, m);
    }
    if call_ensures(ExecIrBuilder::bitxor_imm, (builder, lhs, rhs), r) {
        lemma_computed(v, w, StmtKind::BitwiseImm { op: BitwiseOp::Xor, lhs, rhs: rhs.bits }, r, m);
    }
}

/// On truth values the bitwise operations are the logical ones.
pub proof fn law_logic(
    builder: &mut ExecIrBuilder,
    lhs: SSAValue,
    rhs: SSAValue,
    r: SSAValue,
    m: Machine,
)
    requires
        old(builder).wf(),
        has_place(*old(builder)),
        known_bool(*old(builder), m, lhs),
        known_bool(*old(builder), m, rhs),
    ensures
        call_ensures(ExecIrBuilder::bitor, (builder, lhs, rhs), r) ==> computes(
            *old(builder),
            *final(builder),
            m,
            r,
            TypeFull::Bool,
            Val::Bool(m.env[lhs.index]->Bool_0 || m.env[rhs.index]->Bool_0),
        ),
        call_ensures(ExecIrBuilder::bitand, (builder, lhs, rhs), r) ==> computes(
            *old(builder),
            *final(builder),
            m,
            r,
            TypeFull::Bool,
            Val::Bool(m.env[lhs.index]->Bool_0 && m.env[rhs.index]->Bool_0),
        ),
        call_ensures(ExecIrBuilder::bitxor, (builder, lhs, rhs), r) ==> computes(
            *old(builder),
            *final(builder),
            m,
            r,
            TypeFull::Bool,
            Val::Bool(m.env[lhs.index]->Bool_0 != m.env[rhs.index]->Bool_0),
        ),
        call_ensures(ExecIrBuilder::bitnot, (builder, lhs), r) ==> computes(
            *old(builder),
            *final(builder),
            m,
            r,
            TypeFull::Bool,
            Val::Bool(!m.env[lhs.index]->Bool_0),
        ),
{
    let v = old(builder)@;
    let w = final(builder)@;
    if call_ensures(ExecIrBuilder::bitor, (builder, lhs, rhs), r) {
        lemma_computed(v, w, StmtKind::Bitwise { op: BitwiseOp::Or, lhs, rhs }, r, m);
    }
    if call_ensures(ExecIrBuilder::bitand, (builder, lhs, rhs), r) {
        lemma_computed(v, w, StmtKind::Bitwise { op: BitwiseOp::And, lhs, rhs }, r, m);
    }
    if call_ensures(ExecIrBuilder::bitxor, (builder, lhs, rhs), r) {
        lemma_computed(v, w, StmtKind::Bitwise { op: BitwiseOp::Xor, lhs, rhs }, r, m);
    }
    if call_ensures(ExecIrBuilder::bitnot, (builder, lhs), r) {
        lemma_computed(v, w, StmtKind::BitNot(lhs), r, m);
    }
}

/// A constant is its number.
pub proof fn law_constant(
    builder: &mut ExecIrBuilder,
    iconst: IConst,
    r: SSAValue,
    m: Machine,
)
    requires
        old(builder).wf(),
        has_place(*old(builder)),
        iconst.bits < numbers(iconst.width),
    ensures
        call_ensures(ExecIrBuilder::iconst, (builder, iconst), r) ==> computes(
            *old(builder),
            *final(builder),
            m,
            r,
            TypeFull::Int(iconst.width),
            Val::Int(iconst.bits),
        ),
{
    let v = old(builder)@;
    let w = final(builder)@;
    if call_ensures(ExecIrBuilder::iconst, (builder, iconst), r) {
        lemma_computed(v, w, StmtKind::IConst(iconst), r, m);
    }
}

/// A selection is the first value if the condition holds, and the second if it
/// does not.
pub proof fn law_select(
    builder: &mut ExecIrBuilder,
    cond: SSAValue,
    if_true: SSAValue,
    if_false: SSAValue,
    r: SSAValue,
    m: Machine,
)
    requires
        old(builder).wf(),
        has_place(*old(builder)),
        known_bool(*old(builder), m, cond),
        old(builder)@.has(if_true),
        old(builder)@.has(if_false),
        old(builder)@.ty(if_true) == old(builder)@.ty(if_false),
        m.env.contains_key(if_true.index),
        m.env.contains_key(if_false.index),
    ensures
        call_ensures(ExecIrBuilder::select, (builder, cond, if_true, if_false), r) ==> computes(
            *old(builder),
            *final(builder),
            m,
            r,
            old(builder)@.ty(if_true),
            if m.env[cond.index] == Val::Bool(true) {
                m.env[if_true.index]
            } else {
                m.env[if_false.index]
            },
        ),
{
    let v = old(builder)@;
    let w = final(builder)@;
    if call_ensures(ExecIrBuilder::select, (builder, cond, if_true, if_false), r) {
        lemma_computed(v, w, StmtKind::Select { cond, if_true, if_false }, r, m);
    }
}

/// Whether two numbers of the width stand in a relation.
pub open spec fn related(predicate: IntCmp, width: IntWidth, a: u64, b: u64) -> bool {
    match predicate {
        IntCmp::Equal => a == b,
        IntCmp::NotEqual => a != b,
        IntCmp::SignedLessThan => as_signed(width, a) < as_signed(width, b),
        IntCmp::SignedLessThanOrEqual => as_signed(width, a) <= as_signed(width, b),
        IntCmp::SignedGreaterThan => as_signed(width, a) > as_signed(width, b),
        IntCmp::SignedGreaterThanOrEqual => as_signed(width, a) >= as_signed(width, b),
        IntCmp::UnsignedLessThan => a < b,
        IntCmp::UnsignedLessThanOrEqual => a <= b,
        IntCmp::UnsignedGreaterThan => a > b,
        IntCmp::UnsignedGreaterThanOrEqual => a >= b,
    }
}

/// A comparison tells whether the numbers stand in the relation asked for.
pub proof fn law_comparison(
    builder: &mut ExecIrBuilder,
    predicate: IntCmp,
    lhs: SSAValue,
    rhs: SSAValue,
    amount: IConst,
    width: IntWidth,
    r: SSAValue,
    m: Machine,
)
    requires
        old(builder).wf(),
        has_place(*old(builder)),
        known_int(*old(builder), m, lhs, width),
        known_int(*old(builder), m, rhs, width),
        amount.width == width,
        amount.bits < numbers(width),
    ensures
        call_ensures(ExecIrBuilder::icmp, (builder, predicate, lhs, rhs), r) ==> computes(
            *old(builder),
            *final(builder),
            m,
            r,
            TypeFull::Bool,
            Val::Bool(related(predicate, width, m.env[lhs.index]->Int_0, m.env[rhs.index]->Int_0)),
        ),
        call_ensures(ExecIrBuilder::icmp_imm, (builder, predicate, lhs, amount), r) ==> computes(
            *old(builder),
            *final(builder),
            m,
            r,
            TypeFull::Bool,
            Val::Bool(related(predicate, width, m.env[lhs.index]->Int_0, amount.bits)),
        ),
{
    let v = old(builder)@;
    let w = final(builder)@;
    if call_ensures(ExecIrBuilder::icmp, (builder, predicate, lhs, rhs), r) {
        lemma_computed(v, w, StmtKind::IntCmp { predicate, lhs, rhs }, r, m);
    }
    if call_ensures(ExecIrBuilder::icmp_imm, (builder, predicate, lhs, amount), r) {
        lemma_computed(v, w, StmtKind::IntCmpImm { predicate, lhs, rhs: amount.bits }, r, m);
    }
}

/// A power of two that is no smaller than the number of values is a multiple of
/// it.
proof fn lemma_far(width: IntWidth, by: int)
    requires
        by >= bit_count(width),
    ensures
        pow2(by as nat) == numbers(width) * pow2((by - bit_count(width)) as nat),
        pow2(by as nat) >= numbers(width),
{
    lemma2_to64();
    lemma_pow2_adds(bit_count(width) as nat, (by - bit_count(width)) as nat);
    lemma_pow2_pos((by - bit_count(width)) as nat);
    assert(numbers(width) * pow2((by - bit_count(width)) as nat) >= numbers(width))
        by (nonlinear_arith)
        requires
            pow2((by - bit_count(width)) as nat) >= 1,
            numbers(width) > 0,
    ;
}

/// Shifting a number out altogether.
proof fn lemma_shifted_out(width: IntWidth, x: u64, by: int)
    requires
        x < numbers(width),
        by >= bit_count(width),
    ensures
        x as int / pow2(by as nat) as int == 0,
        (x * pow2(by as nat)) % numbers(width) == 0,
        as_signed(width, x) / pow2(by as nat) as int == as_signed(width, x) / pow2(
            (bit_count(width) - 1) as nat,
        ) as int,
{
    lemma_far(width, by);
    let scale = pow2(by as nat) as int;
    let rest = pow2((by - bit_count(width)) as nat) as int;
    lemma2_to64();
    vstd::arithmetic::div_mod::lemma_basic_div(x as int, scale);
    assert((x * scale) % numbers(width) == 0) by {
        assert(x * scale == numbers(width) * (x * rest)) by (nonlinear_arith)
            requires
                scale == numbers(width) * rest,
        ;
        vstd::arithmetic::div_mod::lemma_mod_multiples_basic(x * rest, numbers(width));
        assert((x * rest) * numbers(width) == numbers(width) * (x * rest)) by (nonlinear_arith);
    }
    let s = as_signed(width, x);
    let half = pow2((bit_count(width) - 1) as nat) as int;
    assert(2 * half == numbers(width)) by {
        lemma_pow2_adds(1, (bit_count(width) - 1) as nat);
    }
    if s >= 0 {
        vstd::arithmetic::div_mod::lemma_basic_div(s, scale);
        vstd::arithmetic::div_mod::lemma_basic_div(s, half);
    } else {
        lemma_minus_one(s, scale);
        lemma_minus_one(s, half);
    }
}

/// Rounding down takes a small negative number to minus one.
proof fn lemma_minus_one(s: int, d: int)
    by (nonlinear_arith)
    requires
        d > 0,
        -d <= s < 0,
    ensures
        s / d == -1,
{
}

/// A shift by a runtime amount multiplies or divides by a power of two, rounding
/// down; the amount is reduced modulo the width.
pub proof fn law_shift(
    builder: &mut ExecIrBuilder,
    value: SSAValue,
    shift: SSAValue,
    width: IntWidth,
    by: IntWidth,
    r: SSAValue,
    m: Machine,
)
    requires
        old(builder).wf(),
        has_place(*old(builder)),
        known_int(*old(builder), m, value, width),
        known_int(*old(builder), m, shift, by),
    ensures
        call_ensures(ExecIrBuilder::ushr, (builder, value, shift), r) ==> computes(
            *old(builder),
            *final(builder),
            m,
            r,
            TypeFull::Int(width),
            Val::Int((m.env[value.index]->Int_0 as int / pow2((m.env[shift.index]->Int_0 as int % bit_count(width)) as nat) as int) as u64),
        ),
        call_ensures(ExecIrBuilder::sshr, (builder, value, shift), r) ==> computes(
            *old(builder),
            *final(builder),
            m,
            r,
            TypeFull::Int(width),
            Val::Int(
                ((as_signed(width, m.env[value.index]->Int_0) / pow2((m.env[shift.index]->Int_0 as int % bit_count(width)) as nat) as int) % numbers(width)) as u64,
            ),
        ),
        call_ensures(ExecIrBuilder::shl, (builder, value, shift), r) ==> computes(
            *old(builder),
            *final(builder),
            m,
            r,
            TypeFull::Int(width),
            Val::Int(((m.env[value.index]->Int_0 * pow2((m.env[shift.index]->Int_0 as int % bit_count(width)) as nat)) % numbers(width)) as u64),
        ),
{
    let v = old(builder)@;
    let w = final(builder)@;
    if call_ensures(ExecIrBuilder::ushr, (builder, value, shift), r) {
        lemma_computed(v, w, StmtKind::Shift { op: ShiftOp::ZeroExtendShr, value, shift }, r, m);
    }
    if call_ensures(ExecIrBuilder::sshr, (builder, value, shift), r) {
        lemma_computed(v, w, StmtKind::Shift { op: ShiftOp::SignExtendShr, value, shift }, r, m);
    }
    if call_ensures(ExecIrBuilder::shl, (builder, value, shift), r) {
        lemma_computed(v, w, StmtKind::Shift { op: ShiftOp::Shl, value, shift }, r, m);
    }
}

/// An unbounded shift by a runtime amount multiplies or divides by that power of
/// two, however large it is.
pub proof fn law_unbounded_shift(
    builder: &mut ExecIrBuilder,
    value: SSAValue,
    shift: SSAValue,
    width: IntWidth,
    by: IntWidth,
    r: SSAValue,
    m: Machine,
)
    requires
        old(builder).wf(),
        has_place(*old(builder)),
        known_int(*old(builder), m, value, width),
        known_int(*old(builder), m, shift, by),
    ensures
        call_ensures(ExecIrBuilder::ushr_unbounded, (builder, value, shift), r) ==> computes(
            *old(builder),
            *final(builder),
            m,
            r,
            TypeFull::Int(width),
            Val::Int((m.env[value.index]->Int_0 as int / pow2((m.env[shift.index]->Int_0) as nat) as int) as u64),
        ),
        call_ensures(ExecIrBuilder::sshr_unbounded, (builder, value, shift), r) ==> computes(
            *old(builder),
            *final(builder),
            m,
            r,
            TypeFull::Int(width),
            Val::Int(
                ((as_signed(width, m.env[value.index]->Int_0) / pow2((m.env[shift.index]->Int_0) as nat) as int) % numbers(width)) as u64,
            ),
        ),
        call_ensures(ExecIrBuilder::shl_unbounded, (builder, value, shift), r) ==> computes(
            *old(builder),
            *final(builder),
            m,
            r,
            TypeFull::Int(width),
            Val::Int(((m.env[value.index]->Int_0 * pow2((m.env[shift.index]->Int_0) as nat)) % numbers(width)) as u64),
        ),
{
    let v = old(builder)@;
    let w = final(builder)@;
    if call_ensures(ExecIrBuilder::ushr_unbounded, (builder, value, shift), r) {
        if m.env[shift.index]->Int_0 >= bit_count(width) {
            lemma_shifted_out(width, m.env[value.index]->Int_0, m.env[shift.index]->Int_0 as int);
        }
        lemma_computed(v, w, StmtKind::ShiftUnbounded { op: ShiftOp::ZeroExtendShr, value, shift }, r, m);
    }
    if call_ensures(ExecIrBuilder::sshr_unbounded, (builder, value, shift), r) {
        if m.env[shift.index]->Int_0 >= bit_count(width) {
            lemma_shifted_out(width, m.env[value.index]->Int_0, m.env[shift.index]->Int_0 as int);
        }
        lemma_computed(v, w, StmtKind::ShiftUnbounded { op: ShiftOp::SignExtendShr, value, shift }, r, m);
    }
    if call_ensures(ExecIrBuilder::shl_unbounded, (builder, value, shift), r) {
        if m.env[shift.index]->Int_0 >= bit_count(width) {
            lemma_shifted_out(width, m.env[value.index]->Int_0, m.env[shift.index]->Int_0 as int);
        }
        lemma_computed(v, w, StmtKind::ShiftUnbounded { op: ShiftOp::Shl, value, shift }, r, m);
    }
}

/// A shift by a constant is the shift by that amount at run time, reduced modulo
/// the width.
pub proof fn law_constant_shift(
    builder: &mut ExecIrBuilder,
    value: SSAValue,
    bits: u8,
    width: IntWidth,
    r: SSAValue,
    m: Machine,
)
    requires
        old(builder).wf(),
        has_place(*old(builder)),
        known_int(*old(builder), m, value, width),
    ensures
        call_ensures(ExecIrBuilder::ushr_imm, (builder, value, bits), r) ==> computes(
            *old(builder),
            *final(builder),
            m,
            r,
            TypeFull::Int(width),
            Val::Int((m.env[value.index]->Int_0 as int / pow2((bits as int % bit_count(width)) as nat) as int) as u64),
        ),
        call_ensures(ExecIrBuilder::sshr_imm, (builder, value, bits), r) ==> computes(
            *old(builder),
            *final(builder),
            m,
            r,
            TypeFull::Int(width),
            Val::Int(
                ((as_signed(width, m.env[value.index]->Int_0) / pow2((bits as int % bit_count(width)) as nat) as int) % numbers(width)) as u64,
            ),
        ),
        call_ensures(ExecIrBuilder::shl_imm, (builder, value, bits), r) ==> computes(
            *old(builder),
            *final(builder),
            m,
            r,
            TypeFull::Int(width),
            Val::Int(((m.env[value.index]->Int_0 * pow2((bits as int % bit_count(width)) as nat)) % numbers(width)) as u64),
        ),
{
    let v = old(builder)@;
    let w = final(builder)@;
    if call_ensures(ExecIrBuilder::ushr_imm, (builder, value, bits), r) {
        lemma_computed(v, w, StmtKind::ShiftImm {
                op: ShiftOp::ZeroExtendShr,
                value,
                shift: modulo_shift(width, bits),
            }, r, m);
    }
    if call_ensures(ExecIrBuilder::sshr_imm, (builder, value, bits), r) {
        lemma_computed(v, w, StmtKind::ShiftImm {
                op: ShiftOp::SignExtendShr,
                value,
                shift: modulo_shift(width, bits),
            }, r, m);
    }
    if call_ensures(ExecIrBuilder::shl_imm, (builder, value, bits), r) {
        lemma_computed(v, w, StmtKind::ShiftImm {
                op: ShiftOp::Shl,
                value,
                shift: modulo_shift(width, bits),
            }, r, m);
    }
}

/// A shift by a constant that is less than the width.
pub proof fn law_exact_constant_shift(
    builder: &mut ExecIrBuilder,
    value: SSAValue,
    bits: u8,
    width: IntWidth,
    r: SSAValue,
    m: Machine,
)
    requires
        old(builder).wf(),
        has_place(*old(builder)),
        known_int(*old(builder), m, value, width),
        bits < bit_count(width),
    ensures
        call_ensures(ExecIrBuilder::ushr_exact_imm, (builder, value, bits), r) ==> computes(
            *old(builder),
            *final(builder),
            m,
            r,
            TypeFull::Int(width),
            Val::Int((m.env[value.index]->Int_0 as int / pow2((bits) as nat) as int) as u64),
        ),
        call_ensures(ExecIrBuilder::sshr_exact_imm, (builder, value, bits), r) ==> computes(
            *old(builder),
            *final(builder),
            m,
            r,
            TypeFull::Int(width),
            Val::Int(
                ((as_signed(width, m.env[value.index]->Int_0) / pow2((bits) as nat) as int) % numbers(width)) as u64,
            ),
        ),
        call_ensures(ExecIrBuilder::shl_exact_imm, (builder, value, bits), r) ==> computes(
            *old(builder),
            *final(builder),
            m,
            r,
            TypeFull::Int(width),
            Val::Int(((m.env[value.index]->Int_0 * pow2((bits) as nat)) % numbers(width)) as u64),
        ),
{
    let v = old(builder)@;
    let w = final(builder)@;
    if call_ensures(ExecIrBuilder::ushr_exact_imm, (builder, value, bits), r) {
        lemma_computed(v, w, StmtKind::ShiftImm { op: ShiftOp::ZeroExtendShr, value, shift: bits }, r, m);
    }
    if call_ensures(ExecIrBuilder::sshr_exact_imm, (builder, value, bits), r) {
        lemma_computed(v, w, StmtKind::ShiftImm { op: ShiftOp::SignExtendShr, value, shift: bits }, r, m);
    }
    if call_ensures(ExecIrBuilder::shl_exact_imm, (builder, value, bits), r) {
        lemma_computed(v, w, StmtKind::ShiftImm { op: ShiftOp::Shl, value, shift: bits }, r, m);
    }
}

/// An unbounded shift by a constant is the unbounded shift by that amount at run
/// time.
pub proof fn law_unbounded_constant_shift(
    builder: &mut ExecIrBuilder,
    value: SSAValue,
    bits: u8,
    width: IntWidth,
    r: SSAValue,
    m: Machine,
)
    requires
        old(builder).wf(),
        has_place(*old(builder)),
        known_int(*old(builder), m, value, width),
    ensures
        call_ensures(ExecIrBuilder::ushr_unbounded_imm, (builder, value, bits), r) ==> computes(
            *old(builder),
            *final(builder),
            m,
            r,
            TypeFull::Int(width),
            Val::Int((m.env[value.index]->Int_0 as int / pow2((bits) as nat) as int) as u64),
        ),
        call_ensures(ExecIrBuilder::sshr_unbounded_imm, (builder, value, bits), r) ==> computes(
            *old(builder),
            *final(builder),
            m,
            r,
            TypeFull::Int(width),
            Val::Int(
                ((as_signed(width, m.env[value.index]->Int_0) / pow2((bits) as nat) as int) % numbers(width)) as u64,
            ),
        ),
        call_ensures(ExecIrBuilder::shl_unbounded_imm, (builder, value, bits), r) ==> computes(
            *old(builder),
            *final(builder),
            m,
            r,
            TypeFull::Int(width),
            Val::Int(((m.env[value.index]->Int_0 * pow2((bits) as nat)) % numbers(width)) as u64),
        ),
{
    let v = old(builder)@;
    let w = final(builder)@;
    if call_ensures(ExecIrBuilder::ushr_unbounded_imm, (builder, value, bits), r) {
        if bits >= bit_count(width) {
            lemma_shifted_out(width, m.env[value.index]->Int_0, bits as int);
        }
        lemma_computed(v, w, unbounded_shift(ShiftOp::ZeroExtendShr, value, width, bits), r, m);
    }
    if call_ensures(ExecIrBuilder::sshr_unbounded_imm, (builder, value, bits), r) {
        if bits >= bit_count(width) {
            lemma_shifted_out(width, m.env[value.index]->Int_0, bits as int);
        }
        lemma_computed(v, w, unbounded_shift(ShiftOp::SignExtendShr, value, width, bits), r, m);
    }
    if call_ensures(ExecIrBuilder::shl_unbounded_imm, (builder, value, bits), r) {
        if bits >= bit_count(width) {
            lemma_shifted_out(width, m.env[value.index]->Int_0, bits as int);
        }
        lemma_computed(v, w, unbounded_shift(ShiftOp::Shl, value, width, bits), r, m);
    }
}

/// Adding a constant is adding its number.
pub proof fn law_add_constant(
    builder: &mut ExecIrBuilder,
    value: SSAValue,
    amount: IConst,
    r: SSAValue,
    m: Machine,
)
    requires
        old(builder).wf(),
        has_place(*old(builder)),
        known_int(*old(builder), m, value, amount.width),
        amount.bits < numbers(amount.width),
        call_ensures(ExecIrBuilder::iadd_imm, (builder, value, amount), r),
    ensures
        final(builder)@.run_new(old(builder)@, m) matches Some(end) && end.env[r.index] == Val::Int(
            ((m.env[value.index]->Int_0 + amount.bits) % numbers(amount.width)) as u64,
        ) && end.state == m.state,
{
    let v = old(builder)@;
    let first = StmtKind::IConst(amount);
    let mid = v.emit(first);
    let rhs = v.next();
    lemma_wf(v);
    lemma_run_emit(v, v, first, m);
    lemma_run_emit(v, mid, StmtKind::ArithBinOp { op: ArithBinOp::Add, lhs: value, rhs }, m);
}

} // verus!
