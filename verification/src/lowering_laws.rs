//! What lowered code computes, and that it computes what the IR asks for.
use vstd::prelude::*;
use crate::ir::model::IrView;
use crate::ir::semantics::{
    arith, bitwise, bitwise_bool, compare, overflowing, overflows, shifted, shifted_modulo,
    shifted_unbounded, Machine, Val,
};
use crate::ir::types::{
    ArithBinOp, BitwiseOp, IConst, IntCmp, IntWidth, OverflowingBinOp, SSAValue, ShiftOp, StmtKind,
    TypeFull,
};
use crate::lowering::{
    operands, spec_arith_op, spec_bitwise_op, spec_int_ty, spec_shift_op, ClifBinary, ClifInst,
    ClifOp, ClifTy, ClifUnary, LowerView,
};

verus! {

impl ClifTy {
    /// The integers of a type.
    pub open spec fn width(self) -> IntWidth {
        match self {
            ClifTy::I8 => IntWidth::W8,
            ClifTy::I16 => IntWidth::W16,
            ClifTy::I32 => IntWidth::W32,
            ClifTy::I64 => IntWidth::W64,
        }
    }
}

/// What a binary instruction computes on numbers of a width. The amount of a
/// shift is reduced modulo the width.
pub open spec fn clif_binary(op: ClifBinary, width: IntWidth, a: u64, b: u64) -> Option<u64> {
    match op {
        ClifBinary::Iadd => arith(ArithBinOp::Add, width, a, b),
        ClifBinary::Isub => arith(ArithBinOp::Sub, width, a, b),
        ClifBinary::Imul => arith(ArithBinOp::Mul, width, a, b),
        ClifBinary::Udiv => arith(ArithBinOp::UncheckedUDiv, width, a, b),
        ClifBinary::Sdiv => arith(ArithBinOp::UncheckedSDiv, width, a, b),
        ClifBinary::Band => Some(bitwise(BitwiseOp::And, a, b)),
        ClifBinary::Bor => Some(bitwise(BitwiseOp::Or, a, b)),
        ClifBinary::Bxor => Some(bitwise(BitwiseOp::Xor, a, b)),
        ClifBinary::Sshr => Some(shifted_modulo(ShiftOp::SignExtendShr, width, a, b as int)),
        ClifBinary::Ushr => Some(shifted_modulo(ShiftOp::ZeroExtendShr, width, a, b as int)),
        ClifBinary::Ishl => Some(shifted_modulo(ShiftOp::Shl, width, a, b as int)),
    }
}

/// A truth value as a byte.
pub open spec fn byte_of(truth: bool) -> u64 {
    if truth {
        1
    } else {
        0
    }
}

/// What an instruction with one result computes, if it works on numbers
/// alone. An immediate is cut to the type.
pub open spec fn clif_eval(op: ClifOp, types: Seq<ClifTy>, vals: Map<u64, u64>) -> Option<u64> {
    match op {
        ClifOp::Iconst { ty, bits } => Some(ty.width().wrap(bits as int)),
        ClifOp::Binary { op, lhs, rhs } => clif_binary(
            op,
            types[lhs as int].width(),
            vals[lhs],
            vals[rhs],
        ),
        ClifOp::BinaryImm { op, lhs, imm } => {
            let width = types[lhs as int].width();
            clif_binary(op, width, vals[lhs], width.wrap(imm as int))
        },
        ClifOp::Unary { op, value } => {
            let width = types[value as int].width();
            match op {
                ClifUnary::Ineg => Some(width.wrap(-(vals[value] as int))),
                ClifUnary::Bnot => Some((width.mask() - vals[value]) as u64),
            }
        },
        ClifOp::Compare { predicate, lhs, rhs } => Some(
            byte_of(compare(predicate, types[lhs as int].width(), vals[lhs], vals[rhs])),
        ),
        ClifOp::CompareImm { predicate, lhs, imm } => {
            let width = types[lhs as int].width();
            Some(byte_of(compare(predicate, width, vals[lhs], width.wrap(imm as int))))
        },
        ClifOp::Select { cond, if_true, if_false } => Some(
            if vals[cond] != 0 {
                vals[if_true]
            } else {
                vals[if_false]
            },
        ),
        _ => None,
    }
}

/// What an instruction adds to the values, if it works on numbers alone.
pub open spec fn clif_step(inst: ClifInst, types: Seq<ClifTy>, vals: Map<u64, u64>) -> Option<
    Map<u64, u64>,
> {
    match inst.op {
        ClifOp::Overflowing { op, lhs, rhs } => {
            let width = types[lhs as int].width();
            let value = overflowing(op, width, vals[lhs], vals[rhs]);
            let flag = byte_of(overflows(op, width, vals[lhs], vals[rhs]));
            Some(vals.insert(inst.result, value).insert((inst.result + 1) as u64, flag))
        },
        _ => match clif_eval(inst.op, types, vals) {
            Some(value) => Some(vals.insert(inst.result, value)),
            None => None,
        },
    }
}

/// Runs instructions one after the other.
pub open spec fn clif_run(
    insts: Seq<ClifInst>,
    types: Seq<ClifTy>,
    vals: Map<u64, u64>,
) -> Option<Map<u64, u64>>
    decreases insts.len(),
{
    if insts.len() == 0 {
        Some(vals)
    } else {
        match clif_run(insts.drop_last(), types, vals) {
            Some(before) => clif_step(insts.last(), types, before),
            None => None,
        }
    }
}

/// A number stands for what an IR value holds: integers stand for
/// themselves, and a boolean is true if the number is not zero.
pub open spec fn stands_for(number: u64, val: Val) -> bool {
    match val {
        Val::Int(x) => number == x,
        Val::Bool(truth) => (number != 0) == truth,
    }
}

/// The boolean is the result of testing a pointer's tags. Its number holds
/// the tags that were found; that of every other boolean is 0 or 1.
pub open spec fn tag_test(ir: IrView, x: u64) -> bool {
    exists|s: int|
        0 <= s < ir.stmts.len() && (#[trigger] ir.stmts[s]).rvalue is HasTag
            && ir.stmts[s].outputs.contains(x)
}

/// The number of a boolean is 0 or 1, unless it is the result of testing
/// tags.
pub open spec fn crisp(ir: IrView, x: u64, number: u64) -> bool {
    tag_test(ir, x) || number <= 1
}

/// The statement passes no result of testing tags on as a boolean or combines
/// it with another one.
pub open spec fn tags_apart(ir: IrView, rvalue: StmtKind) -> bool {
    match rvalue {
        StmtKind::Bitwise { op: _, lhs, rhs } => ir.ty(lhs) is Bool ==> !tag_test(ir, lhs.index)
            && !tag_test(ir, rhs.index),
        StmtKind::Select { cond: _, if_true, if_false } => ir.ty(if_true) is Bool ==> !tag_test(
            ir,
            if_true.index,
        ) && !tag_test(ir, if_false.index),
        _ => true,
    }
}

/// The lowered values hold what the IR's values hold.
pub open spec fn represents(ir: IrView, v: LowerView, m: Machine, vals: Map<u64, u64>) -> bool {
    forall|x: u64|
        #[trigger] v.ready(x) && m.env.contains_key(x) ==> vals.contains_key(v.values[x as int]->0)
            && stands_for(vals[v.values[x as int]->0], m.env[x]) && (match ir.types[x as int] {
            TypeFull::Int(width) => m.env[x] matches Val::Int(number) && number <= width.mask(),
            TypeFull::Bool => m.env[x] is Bool && crisp(ir, x, vals[v.values[x as int]->0]),
            TypeFull::HostPtr(_) => m.env[x] is Int,
        })
}

/// The instructions that lowering a statement appends.
pub open spec fn new_insts(v: LowerView, w: LowerView) -> Seq<ClifInst> {
    w.blocks[v.current as int].insts.skip(v.blocks[v.current as int].insts.len() as int)
}

/// Statements that compute a number from numbers.
pub open spec fn is_pure(rvalue: StmtKind) -> bool {
    match rvalue {
        StmtKind::IConst(_) => true,
        StmtKind::ArithBinOp { .. } => true,
        StmtKind::IntNeg(_) => true,
        StmtKind::IntCmp { .. } => true,
        StmtKind::IntCmpImm { .. } => true,
        StmtKind::Select { .. } => true,
        StmtKind::Bitwise { .. } => true,
        StmtKind::BitwiseImm { .. } => true,
        StmtKind::BitNot(_) => true,
        StmtKind::Shift { .. } => true,
        StmtKind::ShiftUnbounded { .. } => true,
        StmtKind::ShiftImm { .. } => true,
        _ => false,
    }
}

/// The value that lowering a pure statement gives.
pub open spec fn lowered_value(v: LowerView, ir: IrView, rvalue: StmtKind) -> u64 {
    v.lower(ir, rvalue).1[0]
}

proof fn lemma_wrap_fits(width: IntWidth, x: u64)
    requires
        x <= width.mask(),
    ensures
        width.wrap(x as int) == x,
{
    vstd::arithmetic::div_mod::lemma_small_mod(x as nat, width.modulus() as nat);
}

/// What is known of an operand.
proof fn lemma_operand_held(ir: IrView, v: LowerView, m: Machine, vals: Map<u64, u64>, x: SSAValue)
    requires
        v.wf(ir),
        represents(ir, v, m, vals),
        v.ready(x.index),
        m.env.contains_key(x.index),
    ensures
        v.val(x) < v.types.len(),
        stands_for(vals[v.val(x)], m.env[x.index]),
        ir.ty(x) matches TypeFull::Int(width) ==> v.ty(x).width() == width && m.env[x.index] is Int
            && m.number(x) <= width.mask(),
        ir.ty(x) is Bool ==> m.env[x.index] is Bool && crisp(ir, x.index, vals[v.val(x)]),
        ir.ty(x) is HostPtr ==> v.ty(x) == v.ptr_ty && m.env[x.index] is Int,
        vals.contains_key(v.val(x)),
{
    assert(v.values[x.index as int] is Some);
}

/// A statement that is lowered to one instruction.
proof fn lemma_one_inst(v: LowerView, op: ClifOp, ty: ClifTy, vals: Map<u64, u64>)
    requires
        v.current < v.blocks.len(),
        v.types.len() < u64::MAX,
    ensures
        new_insts(v, v.ins1(op, ty).0) == seq![ClifInst { op, result: v.types.len() as u64 }],
        !(op is Overflowing) && clif_eval(op, v.types + seq![ty], vals) is Some ==> clif_run(
            new_insts(v, v.ins1(op, ty).0),
            v.types + seq![ty],
            vals,
        ) == Some(
            vals.insert(v.types.len() as u64, clif_eval(op, v.types + seq![ty], vals)->0),
        ),
{
    let inst = ClifInst { op, result: v.types.len() as u64 };
    assert(new_insts(v, v.ins1(op, ty).0) =~= seq![inst]);
    reveal_with_fuel(clif_run, 2);
    assert(seq![inst].drop_last() =~= Seq::<ClifInst>::empty());
}

/// Running the lowered instructions of a statement gives a value that holds
/// what the statement computes.
pub open spec fn keeps_meaning(
    ir: IrView,
    v: LowerView,
    rvalue: StmtKind,
    m: Machine,
    vals: Map<u64, u64>,
) -> bool {
    let w = v.lower(ir, rvalue).0;
    clif_run(new_insts(v, w), w.types, vals) matches Some(end) && end.contains_key(
        lowered_value(v, ir, rvalue),
    ) && stands_for(end[lowered_value(v, ir, rvalue)], ir.eval(rvalue, m)->0) && (ir.eval(
        rvalue,
        m,
    )->0 is Bool ==> end[lowered_value(v, ir, rvalue)] <= 1) && (forall|x: u64|
        x < v.types.len() && #[trigger] vals.contains_key(x) ==> end.contains_key(x) && end[x]
            == vals[x])
}

proof fn lemma_constant(
    ir: IrView,
    v: LowerView,
    constant: IConst,
    m: Machine,
    vals: Map<u64, u64>,
)
    requires
        v.wf(ir),
        v.types.len() + 8 <= u64::MAX,
        ir.typed(StmtKind::IConst(constant)),
        represents(ir, v, m, vals),
        ir.eval(StmtKind::IConst(constant), m) is Some,
    ensures
        keeps_meaning(ir, v, StmtKind::IConst(constant), m, vals),
{
    lemma_wrap_fits(constant.width, constant.bits);
    lemma_one_inst(
        v,
        ClifOp::Iconst { ty: spec_int_ty(constant.width), bits: constant.bits },
        spec_int_ty(constant.width),
        vals,
    );
}

proof fn lemma_arith(
    ir: IrView,
    v: LowerView,
    op: ArithBinOp,
    lhs: SSAValue,
    rhs: SSAValue,
    m: Machine,
    vals: Map<u64, u64>,
)
    requires
        v.wf(ir),
        v.types.len() + 8 <= u64::MAX,
        ir.typed(StmtKind::ArithBinOp { op, lhs, rhs }),
        v.ready(lhs.index),
        m.env.contains_key(lhs.index),
        v.ready(rhs.index),
        m.env.contains_key(rhs.index),
        represents(ir, v, m, vals),
        ir.eval(StmtKind::ArithBinOp { op, lhs, rhs }, m) is Some,
    ensures
        keeps_meaning(ir, v, StmtKind::ArithBinOp { op, lhs, rhs }, m, vals),
{
    lemma_operand_held(ir, v, m, vals, lhs);
    lemma_operand_held(ir, v, m, vals, rhs);
    lemma_one_inst(
        v,
        ClifOp::Binary { op: spec_arith_op(op), lhs: v.val(lhs), rhs: v.val(rhs) },
        v.ty(lhs),
        vals,
    );
}

proof fn lemma_negate(
    ir: IrView,
    v: LowerView,
    value: SSAValue,
    m: Machine,
    vals: Map<u64, u64>,
)
    requires
        v.wf(ir),
        v.types.len() + 8 <= u64::MAX,
        ir.typed(StmtKind::IntNeg(value)),
        v.ready(value.index),
        m.env.contains_key(value.index),
        represents(ir, v, m, vals),
        ir.eval(StmtKind::IntNeg(value), m) is Some,
    ensures
        keeps_meaning(ir, v, StmtKind::IntNeg(value), m, vals),
{
    lemma_operand_held(ir, v, m, vals, value);
    lemma_one_inst(
        v,
        ClifOp::Unary { op: ClifUnary::Ineg, value: v.val(value) },
        v.ty(value),
        vals,
    );
}

proof fn lemma_compare(
    ir: IrView,
    v: LowerView,
    predicate: IntCmp,
    lhs: SSAValue,
    rhs: SSAValue,
    m: Machine,
    vals: Map<u64, u64>,
)
    requires
        v.wf(ir),
        v.types.len() + 8 <= u64::MAX,
        ir.typed(StmtKind::IntCmp { predicate, lhs, rhs }),
        v.ready(lhs.index),
        m.env.contains_key(lhs.index),
        v.ready(rhs.index),
        m.env.contains_key(rhs.index),
        represents(ir, v, m, vals),
        ir.eval(StmtKind::IntCmp { predicate, lhs, rhs }, m) is Some,
    ensures
        keeps_meaning(ir, v, StmtKind::IntCmp { predicate, lhs, rhs }, m, vals),
{
    lemma_operand_held(ir, v, m, vals, lhs);
    lemma_operand_held(ir, v, m, vals, rhs);
    lemma_one_inst(
        v,
        ClifOp::Compare { predicate, lhs: v.val(lhs), rhs: v.val(rhs) },
        ClifTy::I8,
        vals,
    );
}

proof fn lemma_compare_imm(
    ir: IrView,
    v: LowerView,
    predicate: IntCmp,
    lhs: SSAValue,
    rhs: u64,
    m: Machine,
    vals: Map<u64, u64>,
)
    requires
        v.wf(ir),
        v.types.len() + 8 <= u64::MAX,
        ir.typed(StmtKind::IntCmpImm { predicate, lhs, rhs }),
        v.ready(lhs.index),
        m.env.contains_key(lhs.index),
        represents(ir, v, m, vals),
        ir.eval(StmtKind::IntCmpImm { predicate, lhs, rhs }, m) is Some,
    ensures
        keeps_meaning(ir, v, StmtKind::IntCmpImm { predicate, lhs, rhs }, m, vals),
{
    lemma_operand_held(ir, v, m, vals, lhs);
    lemma_wrap_fits(ir.width(lhs), rhs);
    lemma_one_inst(
        v,
        ClifOp::CompareImm { predicate, lhs: v.val(lhs), imm: rhs },
        ClifTy::I8,
        vals,
    );
}

proof fn lemma_select(
    ir: IrView,
    v: LowerView,
    cond: SSAValue,
    if_true: SSAValue,
    if_false: SSAValue,
    m: Machine,
    vals: Map<u64, u64>,
)
    requires
        v.wf(ir),
        v.types.len() + 8 <= u64::MAX,
        ir.typed(StmtKind::Select { cond, if_true, if_false }),
        v.ready(cond.index),
        m.env.contains_key(cond.index),
        v.ready(if_true.index),
        m.env.contains_key(if_true.index),
        v.ready(if_false.index),
        m.env.contains_key(if_false.index),
        represents(ir, v, m, vals),
        tags_apart(ir, StmtKind::Select { cond, if_true, if_false }),
        ir.eval(StmtKind::Select { cond, if_true, if_false }, m) is Some,
    ensures
        keeps_meaning(ir, v, StmtKind::Select { cond, if_true, if_false }, m, vals),
{
    lemma_operand_held(ir, v, m, vals, cond);
    lemma_operand_held(ir, v, m, vals, if_true);
    lemma_operand_held(ir, v, m, vals, if_false);
    lemma_one_inst(
        v,
        ClifOp::Select { cond: v.val(cond), if_true: v.val(if_true), if_false: v.val(if_false) },
        v.ty(if_true),
        vals,
    );
}

proof fn lemma_bitwise(
    ir: IrView,
    v: LowerView,
    op: BitwiseOp,
    lhs: SSAValue,
    rhs: SSAValue,
    m: Machine,
    vals: Map<u64, u64>,
)
    requires
        v.wf(ir),
        v.types.len() + 8 <= u64::MAX,
        ir.typed(StmtKind::Bitwise { op, lhs, rhs }),
        v.ready(lhs.index),
        m.env.contains_key(lhs.index),
        v.ready(rhs.index),
        m.env.contains_key(rhs.index),
        represents(ir, v, m, vals),
        tags_apart(ir, StmtKind::Bitwise { op, lhs, rhs }),
        ir.eval(StmtKind::Bitwise { op, lhs, rhs }, m) is Some,
    ensures
        keeps_meaning(ir, v, StmtKind::Bitwise { op, lhs, rhs }, m, vals),
{
    lemma_operand_held(ir, v, m, vals, lhs);
    lemma_operand_held(ir, v, m, vals, rhs);
    lemma_bits_of_bools(op, vals[v.val(lhs)], vals[v.val(rhs)]);
    lemma_one_inst(
        v,
        ClifOp::Binary { op: spec_bitwise_op(op), lhs: v.val(lhs), rhs: v.val(rhs) },
        v.ty(lhs),
        vals,
    );
}

proof fn lemma_bitwise_imm(
    ir: IrView,
    v: LowerView,
    op: BitwiseOp,
    lhs: SSAValue,
    rhs: u64,
    m: Machine,
    vals: Map<u64, u64>,
)
    requires
        v.wf(ir),
        v.types.len() + 8 <= u64::MAX,
        ir.typed(StmtKind::BitwiseImm { op, lhs, rhs }),
        v.ready(lhs.index),
        m.env.contains_key(lhs.index),
        represents(ir, v, m, vals),
        ir.eval(StmtKind::BitwiseImm { op, lhs, rhs }, m) is Some,
    ensures
        keeps_meaning(ir, v, StmtKind::BitwiseImm { op, lhs, rhs }, m, vals),
{
    lemma_operand_held(ir, v, m, vals, lhs);
    lemma_wrap_fits(ir.width(lhs), rhs);
    lemma_one_inst(
        v,
        ClifOp::BinaryImm { op: spec_bitwise_op(op), lhs: v.val(lhs), imm: rhs },
        v.ty(lhs),
        vals,
    );
}

proof fn lemma_shift(
    ir: IrView,
    v: LowerView,
    op: ShiftOp,
    value: SSAValue,
    shift: SSAValue,
    m: Machine,
    vals: Map<u64, u64>,
)
    requires
        v.wf(ir),
        v.types.len() + 8 <= u64::MAX,
        ir.typed(StmtKind::Shift { op, value, shift }),
        v.ready(value.index),
        m.env.contains_key(value.index),
        v.ready(shift.index),
        m.env.contains_key(shift.index),
        represents(ir, v, m, vals),
        ir.eval(StmtKind::Shift { op, value, shift }, m) is Some,
    ensures
        keeps_meaning(ir, v, StmtKind::Shift { op, value, shift }, m, vals),
{
    lemma_operand_held(ir, v, m, vals, value);
    lemma_operand_held(ir, v, m, vals, shift);
    lemma_one_inst(
        v,
        ClifOp::Binary { op: spec_shift_op(op), lhs: v.val(value), rhs: v.val(shift) },
        v.ty(value),
        vals,
    );
}

proof fn lemma_shift_imm(
    ir: IrView,
    v: LowerView,
    op: ShiftOp,
    value: SSAValue,
    shift: u8,
    m: Machine,
    vals: Map<u64, u64>,
)
    requires
        v.wf(ir),
        v.types.len() + 8 <= u64::MAX,
        ir.typed(StmtKind::ShiftImm { op, value, shift }),
        v.ready(value.index),
        m.env.contains_key(value.index),
        represents(ir, v, m, vals),
        ir.eval(StmtKind::ShiftImm { op, value, shift }, m) is Some,
    ensures
        keeps_meaning(ir, v, StmtKind::ShiftImm { op, value, shift }, m, vals),
{
    lemma_operand_held(ir, v, m, vals, value);
    lemma_wrap_fits(ir.width(value), shift as u64);
    vstd::arithmetic::div_mod::lemma_small_mod(
        shift as nat,
        ir.width(value).spec_bits() as nat,
    );
    lemma_one_inst(
        v,
        ClifOp::BinaryImm { op: spec_shift_op(op), lhs: v.val(value), imm: shift as u64 },
        v.ty(value),
        vals,
    );
}

proof fn lemma_bit_not(ir: IrView, v: LowerView, value: SSAValue, m: Machine, vals: Map<u64, u64>)
    requires
        v.wf(ir),
        v.types.len() + 8 <= u64::MAX,
        ir.typed(StmtKind::BitNot(value)),
        v.ready(value.index),
        m.env.contains_key(value.index),
        represents(ir, v, m, vals),
        ir.eval(StmtKind::BitNot(value), m) is Some,
    ensures
        keeps_meaning(ir, v, StmtKind::BitNot(value), m, vals),
{
    lemma_operand_held(ir, v, m, vals, value);
    lemma_wrap_fits(v.ty(value).width(), 0);
    if ir.ty(value) is Bool {
        lemma_one_inst(
            v,
            ClifOp::CompareImm { predicate: IntCmp::Equal, lhs: v.val(value), imm: 0 },
            ClifTy::I8,
            vals,
        );
    } else {
        lemma_one_inst(
            v,
            ClifOp::Unary { op: ClifUnary::Bnot, value: v.val(value) },
            v.ty(value),
            vals,
        );
    }
}

/// Lowering keeps the meaning of a statement: if the lowered operands hold
/// what the operands hold, running the lowered instructions gives a value
/// that holds what the statement computes.
pub proof fn law_lowering_keeps_meaning(
    ir: IrView,
    v: LowerView,
    rvalue: StmtKind,
    m: Machine,
    vals: Map<u64, u64>,
)
    requires
        v.wf(ir),
        v.types.len() + 8 <= u64::MAX,
        ir.typed(rvalue),
        is_pure(rvalue),
        v.refuses(ir, rvalue) is None,
        represents(ir, v, m, vals),
        tags_apart(ir, rvalue),
        ir.eval(rvalue, m) is Some,
    ensures
        keeps_meaning(ir, v, rvalue, m, vals),
{
    let ops = operands(ir, rvalue);
    assert(ops.len() > 0 ==> v.ready(ops[0]));
    assert(ops.len() > 1 ==> v.ready(ops[1]));
    assert(ops.len() > 2 ==> v.ready(ops[2]));
    match rvalue {
        StmtKind::IConst(constant) => lemma_constant(ir, v, constant, m, vals),
        StmtKind::ArithBinOp { op, lhs, rhs } => lemma_arith(ir, v, op, lhs, rhs, m, vals),
        StmtKind::IntNeg(value) => lemma_negate(ir, v, value, m, vals),
        StmtKind::IntCmp { predicate, lhs, rhs } => lemma_compare(
            ir,
            v,
            predicate,
            lhs,
            rhs,
            m,
            vals,
        ),
        StmtKind::IntCmpImm { predicate, lhs, rhs } => lemma_compare_imm(
            ir,
            v,
            predicate,
            lhs,
            rhs,
            m,
            vals,
        ),
        StmtKind::Select { cond, if_true, if_false } => lemma_select(
            ir,
            v,
            cond,
            if_true,
            if_false,
            m,
            vals,
        ),
        StmtKind::Bitwise { op, lhs, rhs } => lemma_bitwise(ir, v, op, lhs, rhs, m, vals),
        StmtKind::BitwiseImm { op, lhs, rhs } => lemma_bitwise_imm(ir, v, op, lhs, rhs, m, vals),
        StmtKind::BitNot(value) => lemma_bit_not(ir, v, value, m, vals),
        StmtKind::Shift { op, value, shift } => lemma_shift(ir, v, op, value, shift, m, vals),
        StmtKind::ShiftUnbounded { op, value, shift } => lemma_unbounded_shift(
            ir,
            v,
            op,
            value,
            shift,
            m,
            vals,
        ),
        StmtKind::ShiftImm { op, value, shift } => lemma_shift_imm(
            ir,
            v,
            op,
            value,
            shift,
            m,
            vals,
        ),
        _ => {},
    }
}

/// Lowering keeps the meaning of an operation that also tells whether it
/// overflows: the two lowered values hold the result and the flag.
pub proof fn law_lowering_keeps_overflow(
    ir: IrView,
    v: LowerView,
    op: OverflowingBinOp,
    lhs: SSAValue,
    rhs: SSAValue,
    m: Machine,
    vals: Map<u64, u64>,
)
    requires
        v.wf(ir),
        v.types.len() + 8 <= u64::MAX,
        ir.typed(StmtKind::OverflowingBinOp { op, lhs, rhs }),
        v.refuses(ir, StmtKind::OverflowingBinOp { op, lhs, rhs }) is None,
        represents(ir, v, m, vals),
        m.has_int(lhs),
        m.has_int(rhs),
    ensures
        ({
            let (w, outs) = v.lower(ir, StmtKind::OverflowingBinOp { op, lhs, rhs });
            let width = ir.width(lhs);
            &&& outs.len() == 2
            &&& clif_run(new_insts(v, w), w.types, vals) matches Some(end)
            &&& end[outs[0]] == overflowing(op, width, m.number(lhs), m.number(rhs))
            &&& end[outs[1]] == byte_of(overflows(op, width, m.number(lhs), m.number(rhs)))
            &&& forall|x: u64|
                x < v.types.len() && #[trigger] vals.contains_key(x) ==> end.contains_key(x)
                    && end[x] == vals[x]
        }),
{
    let rvalue = StmtKind::OverflowingBinOp { op, lhs, rhs };
    let ops = operands(ir, rvalue);
    assert(v.ready(ops[0]) && v.ready(ops[1]));
    lemma_operand_held(ir, v, m, vals, lhs);
    lemma_operand_held(ir, v, m, vals, rhs);
    let (w, outs) = v.lower(ir, rvalue);
    let inst = ClifInst {
        op: ClifOp::Overflowing { op, lhs: v.val(lhs), rhs: v.val(rhs) },
        result: v.types.len() as u64,
    };
    assert(new_insts(v, w) =~= seq![inst]);
    reveal_with_fuel(clif_run, 2);
    assert(seq![inst].drop_last() =~= Seq::<ClifInst>::empty());
}

/// Bitwise operations on bytes that are 0 or 1 are those on truth values.
proof fn lemma_bits_of_bools(op: BitwiseOp, a: u64, b: u64)
    ensures
        (a == 0 || a == 1) && (b == 0 || b == 1) ==> bitwise(op, a, b) == byte_of(
            bitwise_bool(op, a == 1, b == 1),
        ),
{
    assert(1u64 & 1 == 1 && 1u64 & 0 == 0 && 0u64 & 1 == 0 && 0u64 & 0 == 0) by (bit_vector);
    assert(1u64 | 1 == 1 && 1u64 | 0 == 1 && 0u64 | 1 == 1 && 0u64 | 0 == 0) by (bit_vector);
    assert(1u64 ^ 1 == 0 && 1u64 ^ 0 == 1 && 0u64 ^ 1 == 1 && 0u64 ^ 0 == 0) by (bit_vector);
}

/// The instructions of a shift without bounds.
spec fn shift_insts(op: ShiftOp, ty: ClifTy, x: u64, s: u64, t: u64) -> Seq<ClifInst> {
    let beyond = match op {
        ShiftOp::SignExtendShr => ClifOp::BinaryImm {
            op: ClifBinary::Sshr,
            lhs: x,
            imm: (ty.spec_bits() - 1) as u64,
        },
        _ => ClifOp::Iconst { ty, bits: 0 },
    };
    seq![
        ClifInst {
            op: ClifOp::CompareImm {
                predicate: IntCmp::UnsignedLessThan,
                lhs: s,
                imm: ty.spec_bits() as u64,
            },
            result: t,
        },
        ClifInst {
            op: ClifOp::Binary { op: spec_shift_op(op), lhs: x, rhs: s },
            result: (t + 1) as u64,
        },
        ClifInst { op: beyond, result: (t + 2) as u64 },
        ClifInst {
            op: ClifOp::Select { cond: t, if_true: (t + 1) as u64, if_false: (t + 2) as u64 },
            result: (t + 3) as u64,
        },
    ]
}

proof fn lemma_shift_insts(v: LowerView, op: ShiftOp, value: SSAValue, shift: SSAValue)
    requires
        v.current < v.blocks.len(),
        v.types.len() + 8 <= u64::MAX,
    ensures
        ({
            let (w, r) = v.shift_unbounded(op, value, shift);
            &&& new_insts(v, w) == shift_insts(
                op,
                v.ty(value),
                v.val(value),
                v.val(shift),
                v.types.len() as u64,
            )
            &&& w.types == v.types + seq![ClifTy::I8, v.ty(value), v.ty(value), v.ty(value)]
            &&& r == v.types.len() + 3
        }),
{
    let (w, r) = v.shift_unbounded(op, value, shift);
    let ty = v.ty(value);
    assert(w.types =~= v.types + seq![ClifTy::I8, ty, ty, ty]);
    assert(new_insts(v, w) =~= shift_insts(
        op,
        ty,
        v.val(value),
        v.val(shift),
        v.types.len() as u64,
    ));
}

/// What the instructions of a shift without bounds compute.
#[verifier::spinoff_prover]
#[verifier::rlimit(60)]
proof fn lemma_shift_run(
    op: ShiftOp,
    types: Seq<ClifTy>,
    x: u64,
    s: u64,
    t: u64,
    vals: Map<u64, u64>,
) -> (end: Map<u64, u64>)
    requires
        x < t,
        s < t,
        t + 8 <= u64::MAX,
        types.len() == t + 4,
        types[t as int] == ClifTy::I8,
        vals[s] <= types[s as int].width().mask(),
    ensures
        clif_run(shift_insts(op, types[x as int], x, s, t), types, vals) == Some(end),
        end.contains_key((t + 3) as u64),
        forall|y: u64| y < t && #[trigger] vals.contains_key(y) ==> end.contains_key(y) && end[y] == vals[y],
        end[(t + 3) as u64] == shifted_unbounded(
            op,
            types[x as int].width(),
            vals[x],
            vals[s] as int,
        ),
{
    let ty = types[x as int];
    let width = ty.width();
    let by = vals[s];
    let insts = shift_insts(op, ty, x, s, t);
    lemma_wrap_fits(types[s as int].width(), ty.spec_bits() as u64);
    lemma_wrap_fits(width, (ty.spec_bits() - 1) as u64);
    lemma_wrap_fits(width, 0);
    vstd::arithmetic::div_mod::lemma_small_mod(
        (ty.spec_bits() - 1) as nat,
        width.spec_bits() as nat,
    );
    if by < width.spec_bits() {
        vstd::arithmetic::div_mod::lemma_small_mod(by as nat, width.spec_bits() as nat);
    }
    let e0 = vals.insert(t, byte_of(by < width.spec_bits()));
    assert(clif_step(insts[0], types, vals) == Some(e0));
    let plain = shifted_modulo(op, width, vals[x], by as int);
    let e1 = e0.insert((t + 1) as u64, plain);
    assert(clif_step(insts[1], types, e0) == Some(e1));
    let far = if op == ShiftOp::SignExtendShr {
        shifted(op, width, vals[x], width.spec_bits() - 1)
    } else {
        0
    };
    let e2 = e1.insert((t + 2) as u64, far);
    assert(clif_step(insts[2], types, e1) == Some(e2));
    let e3 = e2.insert(
        (t + 3) as u64,
        if by < width.spec_bits() {
            plain
        } else {
            far
        },
    );
    assert(clif_step(insts[3], types, e2) == Some(e3));
    lemma_run_four(insts[0], insts[1], insts[2], insts[3], types, vals, e0, e1, e2, e3);
    assert(insts =~= seq![insts[0], insts[1], insts[2], insts[3]]);
    e3
}

proof fn lemma_unbounded_shift(
    ir: IrView,
    v: LowerView,
    op: ShiftOp,
    value: SSAValue,
    shift: SSAValue,
    m: Machine,
    vals: Map<u64, u64>,
)
    requires
        v.wf(ir),
        v.types.len() + 8 <= u64::MAX,
        ir.typed(StmtKind::ShiftUnbounded { op, value, shift }),
        v.ready(value.index),
        v.ready(shift.index),
        m.has_int(value),
        m.has_int(shift),
        represents(ir, v, m, vals),
    ensures
        keeps_meaning(ir, v, StmtKind::ShiftUnbounded { op, value, shift }, m, vals),
{
    lemma_operand_held(ir, v, m, vals, value);
    lemma_operand_held(ir, v, m, vals, shift);
    lemma_shift_insts(v, op, value, shift);
    let w = v.shift_unbounded(op, value, shift).0;
    let end = lemma_shift_run(
        op,
        w.types,
        v.val(value),
        v.val(shift),
        v.types.len() as u64,
        vals,
    );
}

proof fn lemma_run_four(
    i0: ClifInst,
    i1: ClifInst,
    i2: ClifInst,
    i3: ClifInst,
    types: Seq<ClifTy>,
    vals: Map<u64, u64>,
    e0: Map<u64, u64>,
    e1: Map<u64, u64>,
    e2: Map<u64, u64>,
    e3: Map<u64, u64>,
)
    requires
        clif_step(i0, types, vals) == Some(e0),
        clif_step(i1, types, e0) == Some(e1),
        clif_step(i2, types, e1) == Some(e2),
        clif_step(i3, types, e2) == Some(e3),
    ensures
        clif_run(seq![i0, i1, i2, i3], types, vals) == Some(e3),
{
    reveal_with_fuel(clif_run, 5);
    assert(seq![i0, i1, i2, i3].drop_last() =~= seq![i0, i1, i2]);
    assert(seq![i0, i1, i2].drop_last() =~= seq![i0, i1]);
    assert(seq![i0, i1].drop_last() =~= seq![i0]);
    assert(seq![i0].drop_last() =~= Seq::<ClifInst>::empty());
}

} // verus!
