//! What the emitters promise of the code they emit.
use vstd::prelude::*;
use crate::ir::compose::{bits_or, constant, either, equals};
use crate::ir::emit::{load_state, modulo_shift, store_state, unbounded_shift};
use crate::ir::layout::{
    PC_OFFSET, PSTATE_C, PSTATE_N, PSTATE_OFFSET, PSTATE_OTHER_MASK, PSTATE_V, PSTATE_Z,
};
use crate::ir::model::{lemma_wf, single_assignment, IrView};
use crate::ir::semantics::{
    lemma_run_emit, overflowing, overflows, shifted_modulo, shifted_unbounded, truncated_div,
    Machine, Val,
};
use crate::ir::types::{
    Arg, ArithBinOp, BitwiseOp, IntCmp, IntWidth, OverflowingBinOp, SSAValue, ShiftOp, StmtKind,
    TypeFull,
};

verus! {

/// Static single assignment: in every IR that a builder comes to, a value is
/// bound in one place, by a statement or as a parameter of a block.
pub proof fn law_single_assignment(v: IrView)
    requires
        v.wf(),
    ensures
        single_assignment(v),
{
    lemma_wf(v);
    reveal(IrView::bound_once);
}

/// There is room for what a few emitters append.
pub open spec fn has_room(v: IrView) -> bool {
    v.types.len() + 64 <= u64::MAX && v.stmts.len() + 64 <= u64::MAX
}

/// The machine holds a number of the width for an integer value.
pub open spec fn holds_int(v: IrView, m: Machine, value: SSAValue) -> bool {
    v.has(value) && v.ty(value) is Int && m.has_int(value) && m.number(value)
        <= v.width(value).mask()
}

/// Two machines that differ in the values computed since `v` alone.
pub open spec fn same_before(v: IrView, m: Machine, end: Machine) -> bool {
    &&& end.state == m.state
    &&& forall|x: u64|
        x < v.types.len() && #[trigger] m.env.contains_key(x) ==> end.env.contains_key(x)
            && end.env[x] == m.env[x]
}

/// Running what has been appended since `before` takes `m` to `mid`.
#[verifier::opaque]
spec fn ran(before: IrView, v: IrView, m: Machine, mid: Machine) -> bool {
    &&& v.typed_run(before)
    &&& before.stmts.len() <= v.stmts.len()
    &&& v.run_new(before, m) == Some(mid)
}

proof fn lemma_not_run(v: IrView, m: Machine)
    ensures
        ran(v, v, m, m),
{
    reveal(ran);
}

proof fn lemma_has_run(before: IrView, v: IrView, m: Machine, mid: Machine)
    requires
        ran(before, v, m, mid),
    ensures
        v.run_new(before, m) == Some(mid),
{
    reveal(ran);
}

/// What appending one statement with one output does when it runs.
proof fn lemma_step(before: IrView, v: IrView, rvalue: StmtKind, m: Machine, mid: Machine) -> (r:
    Machine)
    requires
        ran(before, v, m, mid),
        v.types.len() + 2 <= u64::MAX,
        v.stmts.len() < u64::MAX,
        v.typed(rvalue),
        v.output_types(rvalue).len() == 1,
        !(rvalue is OverflowingBinOp),
        !(rvalue is StoreHost),
        !(rvalue is Safepoint),
        v.eval(rvalue, mid) is Some,
    ensures
        ran(before, v.emit(rvalue), m, r),
        r.env == mid.env.insert(v.next().index, v.eval(rvalue, mid)->0),
        r.state == mid.state,
        v.emit(rvalue).types == v.types.push(v.output_types(rvalue)[0]),
        v.emit(rvalue).stmts.len() == v.stmts.len() + 1,
        v.next().index == v.types.len(),
{
    reveal(ran);
    lemma_run_emit(before, v, rvalue, m);
    assert(v.types + v.output_types(rvalue) =~= v.types.push(v.output_types(rvalue)[0]));
    Machine { env: mid.env.insert(v.next().index, v.eval(rvalue, mid)->0), ..mid }
}

/// What appending a store to the guest CPU's state does when it runs.
proof fn lemma_store(
    before: IrView,
    v: IrView,
    offset: usize,
    value: SSAValue,
    m: Machine,
    mid: Machine,
) -> (r: Machine)
    requires
        ran(before, v, m, mid),
        v.types.len() + 2 <= u64::MAX,
        v.stmts.len() < u64::MAX,
        v.typed(store_state(offset, value)),
        mid.has_int(value),
        mid.state.contains_key(offset),
    ensures
        ran(before, v.emit(store_state(offset, value)), m, r),
        r.env == mid.env,
        r.state == mid.state.insert(offset, mid.number(value)),
        v.emit(store_state(offset, value)).types == v.types,
        v.emit(store_state(offset, value)).stmts.len() == v.stmts.len() + 1,
{
    reveal(ran);
    lemma_run_emit(before, v, store_state(offset, value), m);
    assert(v.types + Seq::<TypeFull>::empty() =~= v.types);
    Machine { state: mid.state.insert(offset, mid.number(value)), ..mid }
}

/// A number that fits the width stays as it is.
proof fn lemma_wrap(width: IntWidth, x: int)
    requires
        0 <= x <= width.mask(),
    ensures
        width.wrap(x) == x,
{
    vstd::arithmetic::div_mod::lemma_small_mod(x as nat, width.modulus() as nat);
}

proof fn lemma_run_safepoint(before: IrView, v: IrView, m: Machine, mid: Machine)
    requires
        ran(before, v, m, mid),
        v.types.len() + 2 <= u64::MAX,
        v.stmts.len() < u64::MAX,
    ensures
        v.emit(StmtKind::Safepoint).run_new(before, m) == Some(mid),
{
    reveal(ran);
    lemma_run_emit(before, v, StmtKind::Safepoint, m);
}

/// Unsigned division gives the quotient, and `0` if the divisor is `0`.
#[verifier::spinoff_prover]
#[verifier::rlimit(60)]
pub proof fn law_udiv(v: IrView, lhs: SSAValue, rhs: SSAValue, m: Machine)
    requires
        has_room(v),
        v.same_ints(lhs, rhs),
        holds_int(v, m, lhs),
        holds_int(v, m, rhs),
    ensures
        v.udiv(lhs, rhs).0.run_new(v, m) matches Some(end) && end.has_int(v.udiv(lhs, rhs).1)
            && end.number(v.udiv(lhs, rhs).1) == (if m.number(rhs) == 0 {
            0
        } else {
            m.number(lhs) as int / m.number(rhs) as int
        }) && same_before(v, m, end),
{
    lemma_not_run(v, m);
    let width = v.width(rhs);
    let a = m.number(lhs);
    let b = m.number(rhs);
    let (v1, zero) = v.emit1(constant(width, 0));
    let m1 = lemma_step(v, v, constant(width, 0), m, m);
    let (v2, one) = v1.emit1(constant(width, 1));
    let m2 = lemma_step(v, v1, constant(width, 1), m, m1);
    let (v3, rhs_is_zero) = v2.emit1(equals(rhs, 0));
    let m3 = lemma_step(v, v2, equals(rhs, 0), m, m2);
    let (v4, safe_rhs) = v3.emit1(either(rhs_is_zero, one, rhs));
    let m4 = lemma_step(v, v3, either(rhs_is_zero, one, rhs), m, m3);
    let division = StmtKind::ArithBinOp { op: ArithBinOp::UncheckedUDiv, lhs, rhs: safe_rhs };
    let (v5, quotient) = v4.emit1(division);
    let m5 = lemma_step(v, v4, division, m, m4);
    let end = lemma_step(v, v5, either(rhs_is_zero, zero, quotient), m, m5);
    lemma_has_run(v, v.udiv(lhs, rhs).0, m, end);
    assert(b != 0 ==> 0 <= a as int / b as int <= a) by (nonlinear_arith)
        requires
            a >= 0,
            b >= 0,
    ;
}

/// Signed division gives the quotient rounded toward zero, `0` if the divisor
/// is `0`, and the dividend where the quotient does not fit the width.
#[verifier::spinoff_prover]
#[verifier::rlimit(60)]
pub proof fn law_sdiv(v: IrView, lhs: SSAValue, rhs: SSAValue, m: Machine)
    requires
        has_room(v),
        v.same_ints(lhs, rhs),
        holds_int(v, m, lhs),
        holds_int(v, m, rhs),
    ensures
        v.sdiv(lhs, rhs).0.run_new(v, m) matches Some(end) && end.has_int(v.sdiv(lhs, rhs).1)
            && end.number(v.sdiv(lhs, rhs).1) == signed_quotient(
            v.width(lhs),
            m.number(lhs),
            m.number(rhs),
        ) && same_before(v, m, end),
{
    lemma_not_run(v, m);
    let width = v.width(rhs);
    let a = m.number(lhs);
    let b = m.number(rhs);
    let (v1, zero) = v.emit1(constant(width, 0));
    let m1 = lemma_step(v, v, constant(width, 0), m, m);
    let (v2, one) = v1.emit1(constant(width, 1));
    let m2 = lemma_step(v, v1, constant(width, 1), m, m1);
    let (v3, rhs_is_zero) = v2.emit1(equals(rhs, 0));
    let m3 = lemma_step(v, v2, equals(rhs, 0), m, m2);
    let (v4, lhs_is_min) = v3.emit1(equals(lhs, width.sign_bit()));
    let m4 = lemma_step(v, v3, equals(lhs, width.sign_bit()), m, m3);
    let (v5, rhs_is_minus_one) = v4.emit1(equals(rhs, width.mask()));
    let m5 = lemma_step(v, v4, equals(rhs, width.mask()), m, m4);
    let both = StmtKind::Bitwise { op: BitwiseOp::And, lhs: lhs_is_min, rhs: rhs_is_minus_one };
    let (v6, is_overflow) = v5.emit1(both);
    let m6 = lemma_step(v, v5, both, m, m5);
    let (v7, use_safe_rhs) = v6.emit1(bits_or(rhs_is_zero, is_overflow));
    let m7 = lemma_step(v, v6, bits_or(rhs_is_zero, is_overflow), m, m6);
    let (v8, safe_rhs) = v7.emit1(either(use_safe_rhs, one, rhs));
    let m8 = lemma_step(v, v7, either(use_safe_rhs, one, rhs), m, m7);
    let division = StmtKind::ArithBinOp { op: ArithBinOp::UncheckedSDiv, lhs, rhs: safe_rhs };
    let (v9, quotient) = v8.emit1(division);
    assert(m8.number(safe_rhs) == (if b == 0 || (a == width.sign_bit() && b == width.mask()) {
        1
    } else {
        b
    }));
    let m9 = lemma_step(v, v8, division, m, m8);
    let end = lemma_step(v, v9, either(rhs_is_zero, zero, quotient), m, m9);
    lemma_has_run(v, v.sdiv(lhs, rhs).0, m, end);
    lemma_divide_by_one(width, a);
}

/// The signed quotient, where a divisor of `0` gives `0` and a quotient that
/// does not fit the width gives the dividend.
pub open spec fn signed_quotient(width: IntWidth, a: u64, b: u64) -> u64 {
    if b == 0 {
        0
    } else if a == width.sign_bit() && b == width.mask() {
        a
    } else {
        width.wrap(truncated_div(width.signed(a), width.signed(b)))
    }
}

proof fn lemma_divide_by_one(width: IntWidth, a: u64)
    requires
        a <= width.mask(),
    ensures
        width.wrap(truncated_div(width.signed(a), width.signed(1))) == a,
{
    let s = width.signed(a);
    assert(width.signed(1) == 1);
    assert(truncated_div(s, 1) == s);
    let n = width.modulus();
    if a >= width.sign_bit() {
        assert((a - n) % n == a) by (nonlinear_arith)
            requires
                0 <= a < n,
        ;
    } else {
        assert(a as int % n == a) by (nonlinear_arith)
            requires
                0 <= a < n,
        ;
    }
}

/// Moving on to the next instruction adds 4 to the program counter, and
/// changes nothing else.
pub proof fn law_next_insn(v: IrView, m: Machine)
    requires
        v.wf(),
        has_room(v),
        m.state.contains_key(PC_OFFSET),
    ensures
        v.next_insn().run_new(v, m) matches Some(end) && end.state == m.state.insert(
            PC_OFFSET,
            ((m.state[PC_OFFSET] + 4) % 0x1_0000_0000_0000_0000) as u64,
        ),
{
    lemma_wf(v);
    assert(v.ty(Arg::ExecState.spec_value()) == Arg::ExecState.spec_ty());
    lemma_not_run(v, m);
    let load = load_state(PC_OFFSET, IntWidth::W64);
    let (v1, pc) = v.emit1(load);
    let m1 = lemma_step(v, v, load, m, m);
    let (v2, four) = v1.emit1(constant(IntWidth::W64, 4));
    let m2 = lemma_step(v, v1, constant(IntWidth::W64, 4), m, m1);
    let sum = StmtKind::ArithBinOp { op: ArithBinOp::Add, lhs: pc, rhs: four };
    let (v3, new_pc) = v2.emit1(sum);
    let m3 = lemma_step(v, v2, sum, m, m2);
    assert(IntWidth::W64.modulus() == 0x1_0000_0000_0000_0000);
    lemma_wrap(IntWidth::W64, m.state[PC_OFFSET] as int);
    assert(m1.number(pc) == m.state[PC_OFFSET]);
    assert(m3.number(new_pc) == ((m.state[PC_OFFSET] + 4) % 0x1_0000_0000_0000_0000) as u64);
    let m4 = lemma_store(v, v3, PC_OFFSET, new_pc, m, m3);
    let v4 = v3.emit(store_state(PC_OFFSET, new_pc));
    lemma_run_safepoint(v, v4, m, m4);
}

/// A constant shift shifts as far as a shift by that amount at run time: the
/// amount is reduced modulo the width.
pub proof fn law_shift_imm(v: IrView, op: ShiftOp, value: SSAValue, bits: u8, m: Machine)
    requires
        holds_int(v, m, value),
    ensures
        v.eval(
            StmtKind::ShiftImm { op, value, shift: modulo_shift(v.width(value), bits) },
            m,
        ) == Some(Val::Int(shifted_modulo(op, v.width(value), m.number(value), bits as int))),
{
}

/// A constant shift without bounds computes what a shift without bounds by
/// that amount computes at run time.
pub proof fn law_unbounded_shift_imm(
    v: IrView,
    op: ShiftOp,
    value: SSAValue,
    bits: u8,
    m: Machine,
)
    requires
        holds_int(v, m, value),
    ensures
        v.eval(unbounded_shift(op, value, v.width(value), bits), m) == Some(
            Val::Int(shifted_unbounded(op, v.width(value), m.number(value), bits as int)),
        ),
{
}

/// The flags word with its four condition flags replaced.
pub open spec fn with_flags(word: u64, n: bool, z: bool, c: bool, v: bool) -> int {
    word as int % 0x1000_0000 + (if n {
        0x8000_0000int
    } else {
        0
    }) + (if z {
        0x4000_0000int
    } else {
        0
    }) + (if c {
        0x2000_0000int
    } else {
        0
    }) + (if v {
        0x1000_0000int
    } else {
        0
    })
}

proof fn lemma_flag_bits(word: u64, n: u64, z: u64, c: u64, v: u64)
    by (bit_vector)
    requires
        n == 0 || n == 0x8000_0000,
        z == 0 || z == 0x4000_0000,
        c == 0 || c == 0x2000_0000,
        v == 0 || v == 0x1000_0000,
    ensures
        (word & 0x0fff_ffff) | ((n | z) | (c | v)) == word % 0x1000_0000 + n + z + c + v,
{
}

/// Two values that were there before are there still.
spec fn kept(v: IrView, m: Machine, r: Machine) -> bool {
    forall|x: u64|
        x < v.types.len() && #[trigger] m.env.contains_key(x) ==> r.env.contains_key(x) && r.env[x]
            == m.env[x]
}

/// What setting the condition flags does when it runs.
#[verifier::spinoff_prover]
#[verifier::rlimit(100)]
proof fn lemma_set_nzcv(
    before: IrView,
    v: IrView,
    n: SSAValue,
    z: SSAValue,
    c: SSAValue,
    f: SSAValue,
    m: Machine,
    m0: Machine,
) -> (r: Machine)
    requires
        ran(before, v, m, m0),
        v.types.len() + 40 <= u64::MAX,
        v.stmts.len() + 40 <= u64::MAX,
        v.has(Arg::ExecState.spec_value()),
        v.ty(Arg::ExecState.spec_value()) is HostPtr,
        v.is_bool(n),
        v.is_bool(z),
        v.is_bool(c),
        v.is_bool(f),
        m0.has_bool(n),
        m0.has_bool(z),
        m0.has_bool(c),
        m0.has_bool(f),
        m0.state.contains_key(PSTATE_OFFSET),
        m0.state[PSTATE_OFFSET] <= u32::MAX,
    ensures
        ran(before, v.set_nzcv(n, z, c, f), m, r),
        r.state.dom() == m0.state.dom(),
        r.state[PSTATE_OFFSET] == with_flags(
            m0.state[PSTATE_OFFSET],
            m0.truth(n),
            m0.truth(z),
            m0.truth(c),
            m0.truth(f),
        ),
        forall|x: usize| x != PSTATE_OFFSET ==> #[trigger] r.state[x] == m0.state[x],
        kept(v, m0, r),
{
    let word = m0.state[PSTATE_OFFSET];
    let load = load_state(PSTATE_OFFSET, IntWidth::W32);
    let (v1, old_flags) = v.emit1(load);
    let m1 = lemma_step(before, v, load, m, m0);
    lemma_wrap(IntWidth::W32, word as int);
    let zero = constant(IntWidth::W32, 0);
    let (v2, zeroed) = v1.emit1(zero);
    let m2 = lemma_step(before, v1, zero, m, m1);
    let (v3, n_true) = v2.emit1(constant(IntWidth::W32, PSTATE_N as u64));
    let m3 = lemma_step(before, v2, constant(IntWidth::W32, PSTATE_N as u64), m, m2);
    let (v4, z_true) = v3.emit1(constant(IntWidth::W32, PSTATE_Z as u64));
    let m4 = lemma_step(before, v3, constant(IntWidth::W32, PSTATE_Z as u64), m, m3);
    let (v5, c_true) = v4.emit1(constant(IntWidth::W32, PSTATE_C as u64));
    let m5 = lemma_step(before, v4, constant(IntWidth::W32, PSTATE_C as u64), m, m4);
    let (v6, v_true) = v5.emit1(constant(IntWidth::W32, PSTATE_V as u64));
    let m6 = lemma_step(before, v5, constant(IntWidth::W32, PSTATE_V as u64), m, m5);
    assert(kept(v, m0, m6));
    let (v7, n_flag) = v6.emit1(either(n, n_true, zeroed));
    let m7 = lemma_step(before, v6, either(n, n_true, zeroed), m, m6);
    let (v8, z_flag) = v7.emit1(either(z, z_true, zeroed));
    let m8 = lemma_step(before, v7, either(z, z_true, zeroed), m, m7);
    let (v9, c_flag) = v8.emit1(either(c, c_true, zeroed));
    let m9 = lemma_step(before, v8, either(c, c_true, zeroed), m, m8);
    let (v10, v_flag) = v9.emit1(either(f, v_true, zeroed));
    let m10 = lemma_step(before, v9, either(f, v_true, zeroed), m, m9);
    assert(kept(v, m0, m10));
    let (v11, nz) = v10.emit1(bits_or(n_flag, z_flag));
    let m11 = lemma_step(before, v10, bits_or(n_flag, z_flag), m, m10);
    let (v12, cv) = v11.emit1(bits_or(c_flag, v_flag));
    let m12 = lemma_step(before, v11, bits_or(c_flag, v_flag), m, m11);
    let (v13, nzcv) = v12.emit1(bits_or(nz, cv));
    let m13 = lemma_step(before, v12, bits_or(nz, cv), m, m12);
    let mask = StmtKind::BitwiseImm {
        op: BitwiseOp::And,
        lhs: old_flags,
        rhs: PSTATE_OTHER_MASK as u64,
    };
    let (v14, others) = v13.emit1(mask);
    let m14 = lemma_step(before, v13, mask, m, m13);
    let (v15, new_flags) = v14.emit1(bits_or(others, nzcv));
    let m15 = lemma_step(before, v14, bits_or(others, nzcv), m, m14);
    assert(kept(v, m0, m15));
    let a = m10.number(n_flag);
    let b = m10.number(z_flag);
    let d = m10.number(c_flag);
    let e = m10.number(v_flag);
    assert(a == if m0.truth(n) {
        0x8000_0000u64
    } else {
        0
    });
    assert(b == if m0.truth(z) {
        0x4000_0000u64
    } else {
        0
    });
    assert(d == if m0.truth(c) {
        0x2000_0000u64
    } else {
        0
    });
    assert(e == if m0.truth(f) {
        0x1000_0000u64
    } else {
        0
    });
    lemma_flag_bits(word, a, b, d, e);
    assert(m15.number(new_flags) == (word & 0x0fff_ffff) | ((a | b) | (d | e)));
    let r = lemma_store(before, v15, PSTATE_OFFSET, new_flags, m, m15);
    assert(r.state.dom() =~= m0.state.dom());
    r
}

/// Setting the condition flags replaces the four of them and leaves every
/// other bit of the flags word, and all other state, as it was.
pub proof fn law_set_nzcv(
    v: IrView,
    n: SSAValue,
    z: SSAValue,
    c: SSAValue,
    f: SSAValue,
    m: Machine,
)
    requires
        v.wf(),
        has_room(v),
        v.is_bool(n),
        v.is_bool(z),
        v.is_bool(c),
        v.is_bool(f),
        m.has_bool(n),
        m.has_bool(z),
        m.has_bool(c),
        m.has_bool(f),
        m.state.contains_key(PSTATE_OFFSET),
        m.state[PSTATE_OFFSET] <= u32::MAX,
    ensures
        v.set_nzcv(n, z, c, f).run_new(v, m) matches Some(end) && end.state == m.state.insert(
            PSTATE_OFFSET,
            with_flags(
                m.state[PSTATE_OFFSET],
                m.truth(n),
                m.truth(z),
                m.truth(c),
                m.truth(f),
            ) as u64,
        ),
{
    lemma_wf(v);
    assert(v.ty(Arg::ExecState.spec_value()) == Arg::ExecState.spec_ty());
    lemma_not_run(v, m);
    let end = lemma_set_nzcv(v, v, n, z, c, f, m, m);
    lemma_has_run(v, v.set_nzcv(n, z, c, f), m, end);
    assert(end.state =~= m.state.insert(
        PSTATE_OFFSET,
        with_flags(
            m.state[PSTATE_OFFSET],
            m.truth(n),
            m.truth(z),
            m.truth(c),
            m.truth(f),
        ) as u64,
    ));
}

/// Whether an unsigned operation carries: an addition, out of the width; a
/// subtraction, if it borrows nothing.
pub open spec fn carries(op: OverflowingBinOp, width: IntWidth, a: u64, b: u64) -> bool {
    match op {
        OverflowingBinOp::Add => a + b > width.mask(),
        OverflowingBinOp::Sub => a >= b,
    }
}

/// The flag-setting operations give the wrapped result, and set the condition
/// flags as the guest's instructions do: negative and zero after the result,
/// carry after the unsigned operation, overflow after the signed one.
#[verifier::spinoff_prover]
#[verifier::rlimit(60)]
pub proof fn law_flag_setting(
    v: IrView,
    op: OverflowingBinOp,
    lhs: SSAValue,
    rhs: SSAValue,
    m: Machine,
)
    requires
        v.wf(),
        has_room(v),
        v.same_ints(lhs, rhs),
        holds_int(v, m, lhs),
        holds_int(v, m, rhs),
        m.state.contains_key(PSTATE_OFFSET),
        m.state[PSTATE_OFFSET] <= u32::MAX,
    ensures
        ({
            let width = v.width(lhs);
            let a = m.number(lhs);
            let b = m.number(rhs);
            let result = overflowing(op, width, a, b);
            let (w, r) = v.flag_setting(op, lhs, rhs);
            w.run_new(v, m) matches Some(end) && end.has_int(r) && end.number(r) == result
                && end.state == m.state.insert(
                PSTATE_OFFSET,
                with_flags(
                    m.state[PSTATE_OFFSET],
                    result >= width.sign_bit(),
                    result == 0,
                    carries(op, width, a, b),
                    overflows(op, width, a, b),
                ) as u64,
            )
        }),
{
    lemma_wf(v);
    assert(v.ty(Arg::ExecState.spec_value()) == Arg::ExecState.spec_ty());
    let width = v.width(lhs);
    let a = m.number(lhs);
    let b = m.number(rhs);
    let result = overflowing(op, width, a, b);
    let first = StmtKind::OverflowingBinOp { op, lhs, rhs };
    let (v1, value) = v.emit1(first);
    let overflow = SSAValue { index: (value.index + 1) as u64 };
    lemma_run_emit(v, v, first, m);
    let m1 = v1.run_new(v, m)->0;
    assert(v1.types =~= v.types.push(v.ty(lhs)).push(TypeFull::Bool));
    assert(m1.env =~= m.env.insert(value.index, Val::Int(result)).insert(
        overflow.index,
        Val::Bool(overflows(op, width, a, b)),
    ));
    assert(ran(v, v1, m, m1)) by {
        reveal(ran);
    }
    let negative_stmt = StmtKind::IntCmpImm {
        predicate: IntCmp::SignedLessThan,
        lhs: value,
        rhs: 0,
    };
    let (v2, negative) = v1.emit1(negative_stmt);
    let m2 = lemma_step(v, v1, negative_stmt, m, m1);
    let (v3, zero) = v2.emit1(equals(value, 0));
    let m3 = lemma_step(v, v2, equals(value, 0), m, m2);
    let carry_stmt = match op {
        OverflowingBinOp::Add => StmtKind::IntCmp {
            predicate: IntCmp::UnsignedLessThan,
            lhs: value,
            rhs: lhs,
        },
        OverflowingBinOp::Sub => StmtKind::IntCmp {
            predicate: IntCmp::UnsignedGreaterThanOrEqual,
            lhs,
            rhs,
        },
    };
    let (v4, carry) = v3.emit1(carry_stmt);
    let m4 = lemma_step(v, v3, carry_stmt, m, m3);
    lemma_wrapped_sum(width, a, b);
    lemma_wrapped_difference(width, a, b);
    let end = lemma_set_nzcv(v, v4, negative, zero, carry, overflow, m, m4);
    lemma_has_run(v, v.flag_setting(op, lhs, rhs).0, m, end);
    assert(m4.truth(negative) == (result >= width.sign_bit()));
    assert(m4.truth(carry) == carries(op, width, a, b));
    assert(end.state =~= m.state.insert(
        PSTATE_OFFSET,
        with_flags(
            m.state[PSTATE_OFFSET],
            result >= width.sign_bit(),
            result == 0,
            carries(op, width, a, b),
            overflows(op, width, a, b),
        ) as u64,
    ));
    assert(m4.env.contains_key(value.index));
}

proof fn lemma_wrapped_sum(width: IntWidth, a: u64, b: u64)
    requires
        a <= width.mask(),
        b <= width.mask(),
    ensures
        width.wrap(a + b) == (if a + b > width.mask() {
            a + b - width.modulus()
        } else {
            a + b
        }),
{
    let n = width.modulus();
    if a + b > width.mask() {
        assert((a + b) % n == a + b - n) by (nonlinear_arith)
            requires
                n <= a + b < n + n,
        ;
    } else {
        lemma_wrap(width, a + b);
    }
}

proof fn lemma_wrapped_difference(width: IntWidth, a: u64, b: u64)
    requires
        a <= width.mask(),
        b <= width.mask(),
    ensures
        width.wrap(a - b) == (if a < b {
            a - b + width.modulus()
        } else {
            a - b
        }),
{
    let n = width.modulus();
    if a < b {
        assert((a - b) % n == a - b + n) by (nonlinear_arith)
            requires
                -n < a - b < 0,
        ;
    } else {
        lemma_wrap(width, a - b);
    }
}

} // verus!
