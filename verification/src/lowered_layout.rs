//! How a function is laid out when it is lowered.
use vstd::prelude::*;
use crate::block_laws::{
    apart, grown, lemma_grown_on, lemma_ins_grows, lemma_list_grows, lemma_lower_grows,
    lemma_pure_shape,
};
use crate::ir::model::{
    binds, lemma_wf_block, lemma_wf_stmt, passes, single_assignment, IrView, StmtView,
};
use crate::ir::types::{Block, IntCmp, SSAValue, Stmt, StmtKind, TerminatorView, TypeFull};
use crate::lowering::{
    operands, spec_clif_ty, spec_int_ty, ClifBlockView, ClifOp, ClifTy, LowerView, LoweringError,
};
use crate::lowering_laws::is_pure;

verus! {

/// What was lowered is there still, and what has been lowered since has new
/// values.
pub open spec fn extends(v: LowerView, w: LowerView) -> bool {
    &&& v.types.is_prefix_of(w.types)
    &&& v.lists.is_prefix_of(w.lists)
    &&& w.ptr_ty == v.ptr_ty
    &&& w.block_of == v.block_of
    &&& w.blocks.len() == v.blocks.len()
    &&& w.values.len() == v.values.len()
    &&& forall|x: u64|
        #[trigger] v.ready(x) ==> w.ready(x) && w.values[x as int] == v.values[x as int]
    &&& forall|x: u64|
        !v.ready(x) && #[trigger] w.ready(x) ==> w.values[x as int]->0 >= v.types.len()
}

pub proof fn lemma_extends_on(a: LowerView, b: LowerView, c: LowerView)
    requires
        extends(a, b),
        extends(b, c),
    ensures
        extends(a, c),
{
    assert forall|x: u64| #[trigger] a.ready(x) implies c.ready(x) && c.values[x as int]
        == a.values[x as int] by {
        assert(b.ready(x));
    }
    assert forall|x: u64| !a.ready(x) && #[trigger] c.ready(x) implies c.values[x as int]->0
        >= a.types.len() by {
        if b.ready(x) {
            assert(c.values[x as int] == b.values[x as int]);
        }
    }
}

/// The outputs of a lowered statement are new values of their types.
pub open spec fn outputs_fit(ir: IrView, v: LowerView, rvalue: StmtKind) -> bool {
    let (w, outs) = v.lower(ir, rvalue);
    let types = ir.output_types(rvalue);
    &&& outs.len() == types.len()
    &&& forall|i: int|
        0 <= i < outs.len() ==> v.types.len() <= #[trigger] outs[i] < w.types.len() && (
        types[i] is Bool || w.types[outs[i] as int] == spec_clif_ty(v.ptr_ty, types[i]))
    &&& outs.len() <= 2
    &&& outs.len() == 2 ==> outs[0] != outs[1]
}

proof fn lemma_ptr_add_out(v: LowerView, base_ptr: SSAValue, offset: SSAValue, elem_size: usize)
    requires
        v.current < v.blocks.len(),
        v.ptr_add(base_ptr, offset, elem_size).0.types.len() <= u64::MAX,
    ensures
        ({
            let (w, r) = v.ptr_add(base_ptr, offset, elem_size);
            &&& v.types.len() <= r < w.types.len()
            &&& w.types[r as int] == v.ptr_ty
            &&& w.ptr_ty == v.ptr_ty
        }),
{
}

/// The outputs of a lowered statement are new values of their types.
#[verifier::spinoff_prover]
#[verifier::rlimit(100)]
proof fn lemma_outputs_fit(ir: IrView, v: LowerView, rvalue: StmtKind)
    requires
        v.wf(ir),
        v.lower(ir, rvalue).0.types.len() + 8 <= u64::MAX,
        ir.typed(rvalue),
        v.refuses(ir, rvalue) is None,
    ensures
        outputs_fit(ir, v, rvalue),
{
    lemma_lower_grows(ir, v, rvalue);
    reveal(grown);
    let (w, outs) = v.lower(ir, rvalue);
    if is_pure(rvalue) {
        lemma_pure_shape(ir, v, rvalue);
    } else {
        let ops = operands(ir, rvalue);
        assert(ops.len() > 0 ==> v.ready(ops[0]));
        assert(ops.len() > 0 ==> v.values[ops[0] as int] is Some);
        match rvalue {
            StmtKind::PtrAdd { base_ptr, offset, elem_size } => {
                lemma_ptr_add_out(v, base_ptr, offset, elem_size);
            },
            StmtKind::VMLoadRaw { aligned_page_ptr, page_offset, width, seq_cst: _ } => {
                let v1 = v.ptr_add(aligned_page_ptr, page_offset, 1).0;
                assert(w.types == v1.types + seq![spec_int_ty(width)]);
                lemma_ptr_add_out(v, aligned_page_ptr, page_offset, 1);
            },
            _ => {},
        }
    }
}

/// Instructions have been appended to the current block, and no other block
/// has changed.
pub open spec fn appends(v: LowerView, w: LowerView) -> bool {
    &&& w.current == v.current
    &&& w.blocks.len() == v.blocks.len()
    &&& v.blocks[v.current as int].insts.is_prefix_of(w.blocks[v.current as int].insts)
    &&& w.blocks[v.current as int].params == v.blocks[v.current as int].params
    &&& w.blocks[v.current as int].cold == v.blocks[v.current as int].cold
    &&& forall|k: int|
        0 <= k < v.blocks.len() && k != v.current ==> #[trigger] w.blocks[k] == v.blocks[k]
}

proof fn lemma_appends_on(a: LowerView, b: LowerView, c: LowerView)
    requires
        appends(a, b),
        appends(b, c),
    ensures
        appends(a, c),
{
}

/// Remembering outputs changes the values alone.
pub proof fn lemma_bind_rest(v: LowerView, outputs: Seq<u64>, vals: Seq<u64>, n: int)
    ensures
        v.bind(outputs, vals, n) == (LowerView {
            values: v.bind(outputs, vals, n).values,
            ..v
        }),
    decreases n,
{
    if n > 0 {
        lemma_bind_rest(v, outputs, vals, n - 1);
    }
}

/// What remembering the outputs of a statement does.
proof fn lemma_bind(
    ir: IrView,
    v: LowerView,
    v1: LowerView,
    outputs: Seq<u64>,
    vals: Seq<u64>,
    types: Seq<TypeFull>,
    n: int,
)
    requires
        v.wf(ir),
        apart(v),
        grown(v, v1),
        v1.types.len() <= u64::MAX,
        v1.lists.len() <= u64::MAX,
        0 <= n <= outputs.len() <= 2,
        outputs.len() == vals.len() == types.len(),
        forall|i: int|
            0 <= i < outputs.len() ==> (#[trigger] outputs[i]) < ir.types.len()
                && ir.types[outputs[i] as int] == types[i] && !v.ready(outputs[i]),
        forall|i: int|
            0 <= i < vals.len() ==> v.types.len() <= #[trigger] vals[i] < v1.types.len() && (
            types[i] is Bool || v1.types[vals[i] as int] == spec_clif_ty(v.ptr_ty, types[i])),
        vals.len() == 2 ==> vals[0] != vals[1],
    ensures
        ({
            let w = v1.bind(outputs, vals, n);
            &&& w.wf(ir)
            &&& apart(w)
            &&& extends(v, w)
            &&& forall|x: u64|
                #[trigger] w.ready(x) ==> v.ready(x) || exists|i: int|
                    0 <= i < n && #[trigger] outputs[i] == x && w.values[x as int] == Some(vals[i])
            &&& forall|i: int| 0 <= i < n ==> w.ready(#[trigger] outputs[i])
        }),
    decreases n,
{
    reveal(grown);
    let w = v1.bind(outputs, vals, n);
    if n == 0 {
        assert(w == v1);
        assert forall|x: u64| v.ready(x) == #[trigger] w.ready(x) by {}
        assert forall|x: int| 0 <= x < w.values.len() implies (#[trigger] w.values[x] matches Some(
            y,
        ) ==> y < w.types.len() && (ir.types[x] is Bool || w.types[y as int] == spec_clif_ty(
            w.ptr_ty,
            ir.types[x],
        ))) by {
            assert(w.values[x] == v.values[x]);
        }
    } else {
        lemma_bind(ir, v, v1, outputs, vals, types, n - 1);
        let u = v1.bind(outputs, vals, n - 1);
        lemma_bind_rest(v1, outputs, vals, n - 1);
        let out = outputs[n - 1];
        let value = vals[n - 1];
        assert(w == (LowerView { values: u.values.update(out as int, Some(value)), ..u }));
        assert forall|x: int| 0 <= x < w.values.len() implies (#[trigger] w.values[x] matches Some(
            y,
        ) ==> y < w.types.len() && (ir.types[x] is Bool || w.types[y as int] == spec_clif_ty(
            w.ptr_ty,
            ir.types[x],
        ))) by {
            if x != out {
                assert(w.values[x] == u.values[x]);
            }
        }
        assert forall|x: u64| #[trigger] w.ready(x) implies v.ready(x) || exists|i: int|
            0 <= i < n && #[trigger] outputs[i] == x && w.values[x as int] == Some(vals[i]) by {
            if x == out {
                assert(outputs[n - 1] == x);
            } else {
                assert(u.ready(x));
            }
        }
        assert forall|x: u64| #[trigger] v.ready(x) implies w.ready(x) && w.values[x as int]
            == v.values[x as int] by {
            assert(u.ready(x));
            assert(x != out);
        }
        assert forall|x: u64| !v.ready(x) && #[trigger] w.ready(x) implies w.values[x as int]->0
            >= v.types.len() by {
            if x != out {
                assert(u.ready(x));
            }
        }
        assert forall|x: u64, y: u64|
            #![trigger w.ready(x), w.ready(y)]
            w.ready(x) && w.ready(y) && x != y implies w.values[x as int]
            != w.values[y as int] by {
            let other = if x == out {
                y
            } else {
                x
            };
            if x != out {
                assert(u.ready(x));
            }
            if y != out {
                assert(u.ready(y));
            }
            if x == out || y == out {
                assert(u.values[other as int] is Some);
                if v.ready(other) {
                    assert(v.values[other as int] is Some);
                    assert(u.values[other as int] == v.values[other as int]);
                } else {
                    let i = choose|i: int|
                        0 <= i < n - 1 && #[trigger] outputs[i] == other && u.values[other as int]
                            == Some(vals[i]);
                    assert(i == 0 && n == 2);
                }
            }
        }
        assert forall|i: int| 0 <= i < n implies w.ready(#[trigger] outputs[i]) by {
            if i < n - 1 {
                assert(u.ready(outputs[i]));
            }
        }
    }
}

/// Lowering a statement whose outputs are new.
pub proof fn lemma_lower_stmt(ir: IrView, v: LowerView, stmt: StmtView, w: LowerView)
    requires
        v.wf(ir),
        apart(v),
        ir.stmt_ok(stmt),
        v.lower_stmt(ir, stmt) == Ok::<LowerView, LoweringError>(w),
        w.types.len() + 8 <= u64::MAX,
        w.lists.len() <= u64::MAX,
        forall|i: int| 0 <= i < stmt.outputs.len() ==> !v.ready(#[trigger] stmt.outputs[i]),
    ensures
        w.wf(ir),
        apart(w),
        extends(v, w),
        appends(v, w),
        forall|x: u64| #[trigger] w.ready(x) ==> v.ready(x) || stmt.outputs.contains(x),
        forall|i: int| 0 <= i < stmt.outputs.len() ==> w.ready(#[trigger] stmt.outputs[i]),
{
    let (v1, outs) = v.lower(ir, stmt.rvalue);
    let n = stmt.outputs.len() as int;
    lemma_lower_grows(ir, v, stmt.rvalue);
    lemma_bind_rest(v1, stmt.outputs, outs, n);
    lemma_outputs_fit(ir, v, stmt.rvalue);
    lemma_bind(ir, v, v1, stmt.outputs, outs, ir.output_types(stmt.rvalue), n);
    reveal(grown);
}

/// What has been lowered when the first `n` statements of the block at `i`
/// are: the parameters of the blocks, and the outputs up to there.
pub open spec fn lowered_up_to(ir: IrView, v: LowerView, order: Seq<u64>, i: int, n: int) -> bool {
    forall|x: u64| #[trigger]
        v.ready(x) ==> (exists|b: int, k: int| passes(ir, b, k, x)) || (exists|j: int, k: int|
            0 <= j < order.len() && (j < i || j == i && k < n) && #[trigger] binds(
                ir,
                order[j] as int,
                k,
                x,
            ))
}

/// Lowering statements only adds something.
pub proof fn lemma_stmts_grow(ir: IrView, v: LowerView, stmts: Seq<Stmt>, n: int, w: LowerView)
    requires
        v.current < v.blocks.len(),
        v.lower_stmts(ir, stmts, n) == Ok::<LowerView, LoweringError>(w),
    ensures
        appends(v, w),
        v.types.is_prefix_of(w.types),
        v.lists.is_prefix_of(w.lists),
    decreases n,
{
    if n > 0 {
        let u = v.lower_stmts(ir, stmts, n - 1)->Ok_0;
        lemma_stmts_grow(ir, v, stmts, n - 1, u);
        let stmt = ir.stmts[stmts[n - 1].index as int];
        let (u1, outs) = u.lower(ir, stmt.rvalue);
        lemma_lower_grows(ir, u, stmt.rvalue);
        lemma_bind_rest(u1, stmt.outputs, outs, stmt.outputs.len() as int);
        reveal(grown);
        lemma_appends_on(v, u, w);
    }
}

/// Lowering statement `n` of the block at `i` of the compile order, once the
/// statements before it are lowered.
pub proof fn lemma_next_stmt(
    ir: IrView,
    order: Seq<u64>,
    i: int,
    n: int,
    u: LowerView,
    w: LowerView,
)
    requires
        ir.wf(),
        single_assignment(ir),
        order.no_duplicates(),
        0 <= i < order.len(),
        order[i] < ir.blocks.len(),
        u.wf(ir),
        apart(u),
        lowered_up_to(ir, u, order, i, n),
        0 <= n < ir.blocks[order[i] as int].stmts.len(),
        u.lower_stmt(ir, ir.stmts[ir.blocks[order[i] as int].stmts[n].index as int]) == Ok::<
            LowerView,
            LoweringError,
        >(w),
        w.types.len() + 8 <= u64::MAX,
        w.lists.len() <= u64::MAX,
    ensures
        ({
            let stmts = ir.blocks[order[i] as int].stmts;
            let stmt = ir.stmts[stmts[n].index as int];
            &&& stmts[n].index < ir.stmts.len()
            &&& ir.stmt_ok(stmt)
            &&& w.wf(ir)
            &&& apart(w)
            &&& extends(u, w)
            &&& appends(u, w)
            &&& forall|x: u64| #[trigger] w.ready(x) ==> u.ready(x) || stmt.outputs.contains(x)
            &&& forall|k: int| 0 <= k < stmt.outputs.len() ==> w.ready(#[trigger] stmt.outputs[k])
        }),
{
    let stmts = ir.blocks[order[i] as int].stmts;
    let stmt = ir.stmts[stmts[n].index as int];
    lemma_wf_block(ir, Block { index: order[i] });
    assert(stmts[n].index < ir.stmts.len());
    lemma_wf_stmt(ir, stmts[n].index as int);
    assert forall|k: int| 0 <= k < stmt.outputs.len() implies !u.ready(
        #[trigger] stmt.outputs[k],
    ) by {
        let x = stmt.outputs[k];
        assert(binds(ir, order[i] as int, n, x));
        if u.ready(x) {
            if exists|b: int, q: int| passes(ir, b, q, x) {
                let (b, q) = choose|b: int, q: int| passes(ir, b, q, x);
                assert(passes(ir, b, q, x));
            } else {
                let (j, q) = choose|j: int, q: int|
                    0 <= j < order.len() && (j < i || j == i && q < n) && #[trigger] binds(
                        ir,
                        order[j] as int,
                        q,
                        x,
                    );
                assert(binds(ir, order[j] as int, q, x));
                assert(order[j] == order[i]);
            }
        }
    }
    lemma_lower_stmt(ir, u, stmt, w);
}

/// Lowering the first `n` statements of the block at `i` of the compile
/// order.
#[verifier::spinoff_prover]
#[verifier::rlimit(60)]
pub proof fn lemma_lower_stmts(
    ir: IrView,
    order: Seq<u64>,
    i: int,
    v: LowerView,
    n: int,
    w: LowerView,
)
    requires
        ir.wf(),
        single_assignment(ir),
        order.no_duplicates(),
        0 <= i < order.len(),
        order[i] < ir.blocks.len(),
        v.wf(ir),
        apart(v),
        lowered_up_to(ir, v, order, i, 0),
        0 <= n <= ir.blocks[order[i] as int].stmts.len(),
        v.lower_stmts(ir, ir.blocks[order[i] as int].stmts, n) == Ok::<LowerView, LoweringError>(w),
        w.types.len() + 8 <= u64::MAX,
        w.lists.len() <= u64::MAX,
    ensures
        w.wf(ir),
        apart(w),
        extends(v, w),
        appends(v, w),
        lowered_up_to(ir, w, order, i, n),
    decreases n,
{
    let stmts = ir.blocks[order[i] as int].stmts;
    if n > 0 {
        let u = v.lower_stmts(ir, stmts, n - 1)->Ok_0;
        lemma_stmts_grow(ir, v, stmts, n - 1, u);
        let stmt = ir.stmts[stmts[n - 1].index as int];
        let (u1, outs) = u.lower(ir, stmt.rvalue);
        lemma_lower_grows(ir, u, stmt.rvalue);
        lemma_bind_rest(u1, stmt.outputs, outs, stmt.outputs.len() as int);
        assert(u.types.len() <= w.types.len() && u.lists.len() <= w.lists.len()) by {
            reveal(grown);
        }
        lemma_lower_stmts(ir, order, i, v, n - 1, u);
        lemma_next_stmt(ir, order, i, n - 1, u, w);
        lemma_extends_on(v, u, w);
        lemma_appends_on(v, u, w);
        assert forall|x: u64| #[trigger] w.ready(x) implies (exists|b: int, k: int|
            passes(ir, b, k, x)) || (exists|j: int, k: int|
            0 <= j < order.len() && (j < i || j == i && k < n) && #[trigger] binds(
                ir,
                order[j] as int,
                k,
                x,
            )) by {
            if u.ready(x) {
                if !(exists|b: int, k: int| passes(ir, b, k, x)) {
                    let (j, q) = choose|j: int, q: int|
                        0 <= j < order.len() && (j < i || j == i && q < n - 1) && #[trigger] binds(
                            ir,
                            order[j] as int,
                            q,
                            x,
                        );
                    assert(binds(ir, order[j] as int, q, x));
                }
            } else {
                assert(binds(ir, order[i] as int, n - 1, x));
            }
        }
    }
}

/// Lowering the end of a block only adds something.
pub proof fn lemma_terminator_grows(ir: IrView, v: LowerView, terminator: TerminatorView, w: LowerView)
    requires
        v.current < v.blocks.len(),
        v.lower_terminator(ir, terminator) == Ok::<LowerView, LoweringError>(w),
    ensures
        grown(v, w),
{
    match terminator {
        TerminatorView::Return => {
            let op = ClifOp::Iconst { ty: ClifTy::I32, bits: 0 };
            let (v1, zero) = v.ins1(op, ClifTy::I32);
            lemma_ins_grows(v, op, seq![ClifTy::I32]);
            lemma_ins_grows(v1, ClifOp::Return { value: zero }, Seq::empty());
            lemma_grown_on(v, v1, w);
        },
        TerminatorView::ReturnCode(reason) => {
            lemma_ins_grows(v, ClifOp::Return { value: v.val(reason) }, Seq::empty());
        },
        TerminatorView::Br(jump) => {
            let (v1, args) = v.list(v.vals(jump.parameters));
            lemma_list_grows(v, v.vals(jump.parameters));
            let op = ClifOp::Jump { target: v.target(jump.target), args };
            lemma_ins_grows(v1, op, Seq::empty());
            lemma_grown_on(v, v1, w);
        },
        TerminatorView::BrZ(cond, zero, non_zero) => {
            let test = ClifOp::CompareImm {
                predicate: IntCmp::NotEqual,
                lhs: v.val(cond),
                imm: 0,
            };
            let (v1, taken) = v.ins1(test, ClifTy::I8);
            lemma_ins_grows(v, test, seq![ClifTy::I8]);
            let (v2, non_zero_args) = v1.list(v.vals(non_zero.parameters));
            lemma_list_grows(v1, v.vals(non_zero.parameters));
            let (v3, zero_args) = v2.list(v.vals(zero.parameters));
            lemma_list_grows(v2, v.vals(zero.parameters));
            let op = ClifOp::Brif {
                cond: taken,
                non_zero: v.target(non_zero.target),
                non_zero_args,
                zero: v.target(zero.target),
                zero_args,
            };
            lemma_ins_grows(v3, op, Seq::empty());
            lemma_grown_on(v, v1, v2);
            lemma_grown_on(v, v2, v3);
            lemma_grown_on(v, v3, w);
        },
    }
}

/// Something that has grown without new values is as valid as before.
pub proof fn lemma_grown_valid(ir: IrView, v: LowerView, w: LowerView)
    requires
        v.wf(ir),
        apart(v),
        grown(v, w),
        w.types.len() <= u64::MAX,
        w.lists.len() <= u64::MAX,
    ensures
        w.wf(ir),
        apart(w),
        extends(v, w),
        appends(v, w),
        w.values == v.values,
{
    reveal(grown);
    assert forall|x: u64| v.ready(x) == #[trigger] w.ready(x) by {}
    assert forall|x: int| 0 <= x < w.values.len() implies (#[trigger] w.values[x] matches Some(y)
        ==> y < w.types.len() && (ir.types[x] is Bool || w.types[y as int] == spec_clif_ty(
        w.ptr_ty,
        ir.types[x],
    ))) by {
        assert(w.values[x] == v.values[x]);
    }
    assert forall|x: u64, y: u64|
        #![trigger w.ready(x), w.ready(y)]
        w.ready(x) && w.ready(y) && x != y implies w.values[x as int] != w.values[y as int] by {
        assert(v.ready(x) && v.ready(y));
    }
}

/// The view in which a block is lowered.
pub open spec fn opened(v: LowerView, b: u64) -> LowerView {
    LowerView { current: v.block_of[b as int]->0 as nat, ..v }
}

/// Every block of the order has a lowered block of its own.
pub open spec fn placed(v: LowerView, order: Seq<u64>) -> bool {
    &&& forall|j: int|
        0 <= j < order.len() ==> (#[trigger] order[j]) < v.block_of.len() && (
        v.block_of[order[j] as int] matches Some(k) && k < v.blocks.len())
    &&& forall|j: int, l: int|
        0 <= j < order.len() && 0 <= l < order.len() && j != l
            ==> v.block_of[#[trigger] order[j] as int] != v.block_of[#[trigger] order[l] as int]
}

/// Lowering a block only adds something.
pub proof fn lemma_block_grows(ir: IrView, v: LowerView, b: u64, w: LowerView)
    requires
        v.block_of[b as int] matches Some(k) && k < v.blocks.len(),
        v.lower_block(ir, b) == Ok::<LowerView, LoweringError>(w),
    ensures
        v.types.is_prefix_of(w.types),
        v.lists.is_prefix_of(w.lists),
        appends(opened(v, b), w),
        w.block_of == v.block_of,
        w.ptr_ty == v.ptr_ty,
{
    let data = ir.blocks[b as int];
    let start = opened(v, b);
    let n = data.stmts.len() as int;
    let u = start.lower_stmts(ir, data.stmts, n)->Ok_0;
    lemma_stmts_grow(ir, start, data.stmts, n, u);
    lemma_stmts_rest(ir, start, data.stmts, n, u);
    lemma_terminator_grows(ir, u, data.terminator, w);
    reveal(grown);
    lemma_appends_on(start, u, w);
}

/// Lowering statements leaves the places of the blocks.
proof fn lemma_stmts_rest(ir: IrView, v: LowerView, stmts: Seq<Stmt>, n: int, w: LowerView)
    requires
        v.current < v.blocks.len(),
        v.lower_stmts(ir, stmts, n) == Ok::<LowerView, LoweringError>(w),
    ensures
        w.block_of == v.block_of,
        w.ptr_ty == v.ptr_ty,
    decreases n,
{
    if n > 0 {
        let u = v.lower_stmts(ir, stmts, n - 1)->Ok_0;
        lemma_stmts_rest(ir, v, stmts, n - 1, u);
        lemma_stmts_grow(ir, v, stmts, n - 1, u);
        let stmt = ir.stmts[stmts[n - 1].index as int];
        let (u1, outs) = u.lower(ir, stmt.rvalue);
        lemma_lower_grows(ir, u, stmt.rvalue);
        lemma_bind_rest(u1, stmt.outputs, outs, stmt.outputs.len() as int);
        reveal(grown);
    }
}

/// Lowering the block at `i` of the compile order.
pub proof fn lemma_lower_block(ir: IrView, order: Seq<u64>, i: int, v: LowerView, w: LowerView)
    requires
        ir.wf(),
        single_assignment(ir),
        order.no_duplicates(),
        0 <= i < order.len(),
        order[i] < ir.blocks.len(),
        v.wf(ir),
        apart(v),
        v.block_of[order[i] as int] is Some,
        lowered_up_to(ir, v, order, i, 0),
        v.lower_block(ir, order[i]) == Ok::<LowerView, LoweringError>(w),
        w.types.len() + 8 <= u64::MAX,
        w.lists.len() <= u64::MAX,
    ensures
        w.wf(ir),
        apart(w),
        extends(v, w),
        lowered_up_to(ir, w, order, i + 1, 0),
{
    let data = ir.blocks[order[i] as int];
    let start = opened(v, order[i]);
    let n = data.stmts.len() as int;
    let u = start.lower_stmts(ir, data.stmts, n)->Ok_0;
    lemma_opened(ir, v, order[i]);
    lemma_terminator_grows_after(ir, v, order[i], w);
    assert forall|x: u64| #[trigger] start.ready(x) == v.ready(x) by {}
    assert(lowered_up_to(ir, start, order, i, 0)) by {
        assert forall|x: u64| #[trigger] start.ready(x) implies v.ready(x) by {}
    }
    lemma_lower_stmts(ir, order, i, start, n, u);
    lemma_grown_valid(ir, u, w);
    lemma_extends_on(start, u, w);
    assert(extends(v, start));
    lemma_extends_on(v, start, w);
    assert forall|x: u64| #[trigger] w.ready(x) implies (exists|b: int, k: int|
        passes(ir, b, k, x)) || (exists|j: int, k: int|
        0 <= j < order.len() && (j < i + 1 || j == i + 1 && k < 0) && #[trigger] binds(
            ir,
            order[j] as int,
            k,
            x,
        )) by {
        assert(u.ready(x));
        if !(exists|b: int, k: int| passes(ir, b, k, x)) {
            let (j, q) = choose|j: int, q: int|
                0 <= j < order.len() && (j < i || j == i && q < n) && #[trigger] binds(
                    ir,
                    order[j] as int,
                    q,
                    x,
                );
            assert(binds(ir, order[j] as int, q, x));
        }
    }
}

/// A view in which a block is lowered is as valid as the view before.
pub proof fn lemma_opened(ir: IrView, v: LowerView, b: u64)
    requires
        v.wf(ir),
        apart(v),
        b < ir.blocks.len(),
        v.block_of[b as int] is Some,
    ensures
        opened(v, b).wf(ir),
        apart(opened(v, b)),
        extends(v, opened(v, b)),
{
    let w = opened(v, b);
    assert(v.block_of[b as int] is Some);
    assert forall|x: u64| v.ready(x) == #[trigger] w.ready(x) by {}
    assert forall|x: int| 0 <= x < w.values.len() implies (#[trigger] w.values[x] matches Some(y)
        ==> y < w.types.len() && (ir.types[x] is Bool || w.types[y as int] == spec_clif_ty(
        w.ptr_ty,
        ir.types[x],
    ))) by {
        assert(w.values[x] == v.values[x]);
    }
    assert forall|k: int| 0 <= k < w.block_of.len() implies (#[trigger] w.block_of[k] matches Some(
        x,
    ) ==> x < w.blocks.len()) by {
        assert(w.block_of[k] == v.block_of[k]);
    }
    assert forall|x: u64, y: u64|
        #![trigger w.ready(x), w.ready(y)]
        w.ready(x) && w.ready(y) && x != y implies w.values[x as int] != w.values[y as int] by {
        assert(v.ready(x) && v.ready(y));
    }
}

/// The end of a block comes after its statements.
pub proof fn lemma_terminator_grows_after(ir: IrView, v: LowerView, b: u64, w: LowerView)
    requires
        v.wf(ir),
        b < ir.blocks.len(),
        v.block_of[b as int] is Some,
        v.lower_block(ir, b) == Ok::<LowerView, LoweringError>(w),
    ensures
        ({
            let data = ir.blocks[b as int];
            let u = opened(v, b).lower_stmts(ir, data.stmts, data.stmts.len() as int)->Ok_0;
            &&& grown(u, w)
            &&& u.types.len() <= w.types.len()
            &&& u.lists.len() <= w.lists.len()
        }),
{
    let data = ir.blocks[b as int];
    let n = data.stmts.len() as int;
    let start = opened(v, b);
    let u = start.lower_stmts(ir, data.stmts, n)->Ok_0;
    assert(v.block_of[b as int] is Some);
    lemma_stmts_grow(ir, start, data.stmts, n, u);
    lemma_terminator_grows(ir, u, data.terminator, w);
    reveal(grown);
}

/// Lowering blocks only adds something.
pub proof fn lemma_blocks_grow(ir: IrView, order: Seq<u64>, v: LowerView, n: int, w: LowerView)
    requires
        placed(v, order),
        0 <= n <= order.len(),
        v.lower_blocks(ir, order, n) == Ok::<LowerView, LoweringError>(w),
    ensures
        v.types.is_prefix_of(w.types),
        v.lists.is_prefix_of(w.lists),
        w.block_of == v.block_of,
        w.blocks.len() == v.blocks.len(),
        w.ptr_ty == v.ptr_ty,
        placed(w, order),
    decreases n,
{
    if n > 0 {
        let u = v.lower_blocks(ir, order, n - 1)->Ok_0;
        lemma_blocks_grow(ir, order, v, n - 1, u);
        assert(u.block_of[order[n - 1] as int] is Some);
        lemma_block_grows(ir, u, order[n - 1], w);
    }
}

/// Lowering the first `n` blocks of the compile order.
#[verifier::spinoff_prover]
#[verifier::rlimit(60)]
pub proof fn lemma_lower_blocks(ir: IrView, order: Seq<u64>, v: LowerView, n: int, w: LowerView)
    requires
        ir.wf(),
        single_assignment(ir),
        order.no_duplicates(),
        forall|j: int| 0 <= j < order.len() ==> (#[trigger] order[j]) < ir.blocks.len(),
        v.wf(ir),
        apart(v),
        placed(v, order),
        lowered_up_to(ir, v, order, 0, 0),
        0 <= n <= order.len(),
        v.lower_blocks(ir, order, n) == Ok::<LowerView, LoweringError>(w),
        w.types.len() + 8 <= u64::MAX,
        w.lists.len() <= u64::MAX,
    ensures
        w.wf(ir),
        apart(w),
        extends(v, w),
        lowered_up_to(ir, w, order, n, 0),
        forall|j: int|
            n <= j < order.len() ==> w.blocks[v.block_of[#[trigger] order[j] as int]->0 as int]
                == v.blocks[v.block_of[order[j] as int]->0 as int],
    decreases n,
{
    if n > 0 {
        let u = v.lower_blocks(ir, order, n - 1)->Ok_0;
        let b = order[n - 1];
        lemma_blocks_grow(ir, order, v, n - 1, u);
        assert(u.block_of[b as int] is Some);
        lemma_block_grows(ir, u, b, w);
        lemma_lower_blocks(ir, order, v, n - 1, u);
        lemma_lower_block(ir, order, n - 1, u, w);
        lemma_extends_on(v, u, w);
        assert forall|j: int| n <= j < order.len() implies w.blocks[v.block_of[
            #[trigger] order[j] as int
        ]->0 as int] == v.blocks[v.block_of[order[j] as int]->0 as int] by {
            let k = v.block_of[order[j] as int]->0 as int;
            assert(u.blocks[k] == v.blocks[k]);
            assert(v.block_of[order[j] as int] != v.block_of[order[n - 1] as int]);
        }
    }
}

/// What is lowered after a block leaves it alone.
#[verifier::spinoff_prover]
#[verifier::rlimit(60)]
pub proof fn lemma_block_stays(
    ir: IrView,
    order: Seq<u64>,
    v: LowerView,
    i: int,
    n: int,
    u: LowerView,
    w: LowerView,
)
    requires
        ir.wf(),
        single_assignment(ir),
        order.no_duplicates(),
        forall|j: int| 0 <= j < order.len() ==> (#[trigger] order[j]) < ir.blocks.len(),
        v.wf(ir),
        apart(v),
        placed(v, order),
        lowered_up_to(ir, v, order, 0, 0),
        0 <= i <= n <= order.len(),
        v.lower_blocks(ir, order, i) == Ok::<LowerView, LoweringError>(u),
        v.lower_blocks(ir, order, n) == Ok::<LowerView, LoweringError>(w),
        w.types.len() + 8 <= u64::MAX,
        w.lists.len() <= u64::MAX,
    ensures
        extends(u, w),
        forall|j: int|
            0 <= j < i ==> w.blocks[v.block_of[#[trigger] order[j] as int]->0 as int]
                == u.blocks[v.block_of[order[j] as int]->0 as int],
    decreases n - i,
{
    if i < n {
        let t = v.lower_blocks(ir, order, n - 1)->Ok_0;
        let b = order[n - 1];
        lemma_blocks_grow(ir, order, v, n - 1, t);
        assert(t.block_of[b as int] is Some);
        lemma_block_grows(ir, t, b, w);
        lemma_lower_blocks(ir, order, v, n - 1, t);
        lemma_block_stays(ir, order, v, i, n - 1, u, t);
        lemma_lower_block(ir, order, n - 1, t, w);
        lemma_extends_on(u, t, w);
        assert forall|j: int| 0 <= j < i implies w.blocks[v.block_of[
            #[trigger] order[j] as int
        ]->0 as int] == u.blocks[v.block_of[order[j] as int]->0 as int] by {
            let k = v.block_of[order[j] as int]->0 as int;
            assert(t.blocks[k] == u.blocks[k]);
            assert(v.block_of[order[j] as int] != v.block_of[order[n - 1] as int]);
        }
    }
}

/// The parameters of the blocks that have been added have values.
pub open spec fn laid_out(ir: IrView, order: Seq<u64>, v: LowerView) -> bool {
    &&& v.blocks.len() <= order.len()
    &&& v.current == 0
    &&& v.lists.len() == 0
    &&& v.values.len() == ir.types.len()
    &&& v.block_of.len() == ir.blocks.len()
    &&& forall|j: int|
        0 <= j < v.blocks.len() ==> (#[trigger] v.blocks[j]).insts.len() == 0
            && v.blocks[j].params.len() <= ir.blocks[order[j] as int].parameters.len()
            && v.block_of[order[j] as int] == Some(j as u64)
    &&& forall|j: int, k: int|
        0 <= j < v.blocks.len() && 0 <= k < v.blocks[j].params.len()
            ==> v.values[ir.blocks[order[j] as int].parameters[k] as int] == Some(
            #[trigger] v.blocks[j].params[k],
        )
    &&& forall|x: u64| #[trigger] v.ready(x) ==> has_param(ir, order, v, x)
    &&& forall|x: int|
        0 <= x < v.values.len() ==> (#[trigger] v.values[x] matches Some(y) ==> y < v.types.len()
            && (ir.types[x] is Bool || v.types[y as int] == spec_clif_ty(v.ptr_ty, ir.types[x])))
    &&& forall|b: int|
        0 <= b < v.block_of.len() ==> (#[trigger] v.block_of[b] matches Some(k) ==> k
            < v.blocks.len())
    &&& apart(v)
}

/// The value is a parameter that has been added.
pub open spec fn has_param(ir: IrView, order: Seq<u64>, v: LowerView, x: u64) -> bool {
    exists|j: int, k: int|
        0 <= j < v.blocks.len() && 0 <= k < v.blocks[j].params.len() && #[trigger] passes(
            ir,
            order[j] as int,
            k,
            x,
        )
}

/// Adding a parameter to the last block.
#[verifier::spinoff_prover]
#[verifier::rlimit(60)]
proof fn lemma_add_param(ir: IrView, order: Seq<u64>, v: LowerView, w: LowerView)
    requires
        ir.wf(),
        single_assignment(ir),
        order.no_duplicates(),
        forall|j: int| 0 <= j < order.len() ==> (#[trigger] order[j]) < ir.blocks.len(),
        laid_out(ir, order, v),
        v.blocks.len() > 0,
        v.types.len() < u64::MAX,
        ({
            let last = v.blocks.last();
            let p = last.params.len() as int;
            let data = ir.blocks[order[v.blocks.len() - 1] as int];
            let value = v.types.len() as u64;
            &&& p < data.parameters.len()
            &&& data.parameters[p] < ir.types.len()
            &&& w == (LowerView {
                types: v.types.push(spec_clif_ty(v.ptr_ty, ir.types[data.parameters[p] as int])),
                values: v.values.update(data.parameters[p] as int, Some(value)),
                blocks: v.blocks.update(
                    v.blocks.len() - 1,
                    ClifBlockView { params: last.params.push(value), ..last },
                ),
                ..v
            })
        }),
    ensures
        laid_out(ir, order, w),
{
    let l = v.blocks.len() - 1;
    let last = v.blocks.last();
    let p = last.params.len() as int;
    let data = ir.blocks[order[l] as int];
    let value = v.types.len() as u64;
    let new = data.parameters[p];
    assert(passes(ir, order[l] as int, p, new));
    assert(!v.ready(new)) by {
        if v.ready(new) {
            let (j, k) = choose|j: int, k: int|
                0 <= j < v.blocks.len() && 0 <= k < v.blocks[j].params.len() && #[trigger] passes(
                    ir,
                    order[j] as int,
                    k,
                    new,
                );
            assert(passes(ir, order[j] as int, k, new));
            assert(order[j] == order[l]);
        }
    }
    assert forall|j: int| 0 <= j < w.blocks.len() implies (#[trigger] w.blocks[j]).insts.len() == 0
        && w.blocks[j].params.len() <= ir.blocks[order[j] as int].parameters.len()
        && w.block_of[order[j] as int] == Some(j as u64) by {
        assert(v.blocks[j].insts.len() == 0);
    }
    assert forall|j: int, k: int|
        0 <= j < w.blocks.len() && 0 <= k < w.blocks[j].params.len() implies w.values[
        ir.blocks[order[j] as int].parameters[k] as int
    ] == Some(#[trigger] w.blocks[j].params[k]) by {
        let x = ir.blocks[order[j] as int].parameters[k];
        if j == l && k == p {
        } else {
            assert(v.blocks[j].insts.len() == 0);
            assert(w.blocks[j].params[k] == v.blocks[j].params[k]);
            assert(passes(ir, order[j] as int, k, x));
            if x == new {
                assert(order[j] == order[l]);
            }
            lemma_wf_block(ir, Block { index: order[j] });
            assert(x < ir.types.len());
        }
    }
    assert forall|x: u64| #[trigger] w.ready(x) implies has_param(ir, order, w, x) by {
        if x == new {
            assert(w.blocks[l].params.len() == p + 1);
            assert(passes(ir, order[l] as int, p, x));
        } else {
            assert(v.ready(x));
            let (j, k) = choose|j: int, k: int|
                0 <= j < v.blocks.len() && 0 <= k < v.blocks[j].params.len() && #[trigger] passes(
                    ir,
                    order[j] as int,
                    k,
                    x,
                );
            assert(passes(ir, order[j] as int, k, x));
            assert(k < w.blocks[j].params.len());
        }
    }
    assert forall|x: int| 0 <= x < w.values.len() implies (#[trigger] w.values[x] matches Some(y)
        ==> y < w.types.len() && (ir.types[x] is Bool || w.types[y as int] == spec_clif_ty(
        w.ptr_ty,
        ir.types[x],
    ))) by {
        if x != new {
            assert(w.values[x] == v.values[x]);
        }
    }
    assert forall|x: u64, y: u64|
        #![trigger w.ready(x), w.ready(y)]
        w.ready(x) && w.ready(y) && x != y implies w.values[x as int] != w.values[y as int] by {
        if x != new {
            assert(v.ready(x));
            assert(v.values[x as int] is Some);
        }
        if y != new {
            assert(v.ready(y));
            assert(v.values[y as int] is Some);
        }
    }
}

/// Adding the first `n` parameters of a block.
proof fn lemma_add_params(ir: IrView, order: Seq<u64>, v: LowerView, n: int)
    requires
        ir.wf(),
        single_assignment(ir),
        order.no_duplicates(),
        forall|j: int| 0 <= j < order.len() ==> (#[trigger] order[j]) < ir.blocks.len(),
        laid_out(ir, order, v),
        v.blocks.len() > 0,
        v.blocks.last().params.len() == 0,
        ({
            let params = ir.blocks[order[v.blocks.len() - 1] as int].parameters;
            &&& 0 <= n <= params.len()
            &&& forall|i: int| 0 <= i < params.len() ==> (#[trigger] params[i]) < ir.types.len()
            &&& v.add_params(ir, params, n).types.len() <= u64::MAX
        }),
    ensures
        ({
            let params = ir.blocks[order[v.blocks.len() - 1] as int].parameters;
            let w = v.add_params(ir, params, n);
            &&& laid_out(ir, order, w)
            &&& w.blocks.len() == v.blocks.len()
            &&& w.blocks.last().params.len() == n
            &&& forall|j: int| 0 <= j < v.blocks.len() - 1 ==> #[trigger] w.blocks[j] == v.blocks[j]
            &&& w.types.len() == v.types.len() + n
            &&& w.ptr_ty == v.ptr_ty
        }),
    decreases n,
{
    let params = ir.blocks[order[v.blocks.len() - 1] as int].parameters;
    if n > 0 {
        lemma_params_count(ir, v, params, n - 1);
        lemma_params_count(ir, v, params, n);
        lemma_add_params(ir, order, v, n - 1);
        let u = v.add_params(ir, params, n - 1);
        let w = v.add_params(ir, params, n);
        lemma_add_param(ir, order, u, w);
    }
}

proof fn lemma_params_count(ir: IrView, v: LowerView, params: Seq<u64>, n: int)
    requires
        n >= 0,
    ensures
        v.add_params(ir, params, n).types.len() == v.types.len() + n,
    decreases n,
{
    if n > 0 {
        lemma_params_count(ir, v, params, n - 1);
    }
}

/// Adding the first `n` blocks of the compile order.
#[verifier::spinoff_prover]
#[verifier::rlimit(60)]
pub proof fn lemma_add_blocks(ir: IrView, ptr_ty: ClifTy, order: Seq<u64>, n: int)
    requires
        ir.wf(),
        single_assignment(ir),
        order.no_duplicates(),
        forall|j: int| 0 <= j < order.len() ==> (#[trigger] order[j]) < ir.blocks.len(),
        0 <= n <= order.len() <= u64::MAX,
        LowerView::blank(ir, ptr_ty).add_blocks(ir, order, n).types.len() <= u64::MAX,
    ensures
        ({
            let w = LowerView::blank(ir, ptr_ty).add_blocks(ir, order, n);
            &&& laid_out(ir, order, w)
            &&& w.blocks.len() == n
            &&& w.ptr_ty == ptr_ty
            &&& forall|j: int|
                0 <= j < n ==> (#[trigger] w.blocks[j]).params.len()
                    == ir.blocks[order[j] as int].parameters.len()
        }),
    decreases n,
{
    let blank = LowerView::blank(ir, ptr_ty);
    let w = blank.add_blocks(ir, order, n);
    if n > 0 {
        let u = blank.add_blocks(ir, order, n - 1);
        let b = order[n - 1];
        let data = ir.blocks[b as int];
        let v = LowerView {
            blocks: u.blocks.push(
                ClifBlockView { params: Seq::empty(), cold: data.is_cold, insts: Seq::empty() },
            ),
            block_of: u.block_of.update(b as int, Some(u.blocks.len() as u64)),
            ..u
        };
        let p = data.parameters.len() as int;
        assert(w == v.add_params(ir, data.parameters, p));
        lemma_params_count(ir, v, data.parameters, p);
        lemma_add_blocks(ir, ptr_ty, order, n - 1);
        assert forall|j: int| 0 <= j < v.blocks.len() implies (#[trigger] v.blocks[j]).insts.len()
            == 0 && v.blocks[j].params.len() <= ir.blocks[order[j] as int].parameters.len()
            && v.block_of[order[j] as int] == Some(j as u64) by {
            if j < n - 1 {
                assert(u.blocks[j].insts.len() == 0);
                assert(order[j] != b);
            }
        }
        assert forall|j: int, k: int|
            0 <= j < v.blocks.len() && 0 <= k < v.blocks[j].params.len() implies v.values[
            ir.blocks[order[j] as int].parameters[k] as int
        ] == Some(#[trigger] v.blocks[j].params[k]) by {
            assert(v.blocks[j].params[k] == u.blocks[j].params[k]);
        }
        assert forall|x: u64| #[trigger] v.ready(x) implies has_param(ir, order, v, x) by {
            assert(u.ready(x));
            let (j, k) = choose|j: int, k: int|
                0 <= j < u.blocks.len() && 0 <= k < u.blocks[j].params.len() && #[trigger] passes(
                    ir,
                    order[j] as int,
                    k,
                    x,
                );
            assert(passes(ir, order[j] as int, k, x));
            assert(v.blocks[j] == u.blocks[j]);
        }
        assert forall|x: int| 0 <= x < v.values.len() implies (#[trigger] v.values[x] matches Some(
            y,
        ) ==> y < v.types.len() && (ir.types[x] is Bool || v.types[y as int] == spec_clif_ty(
            v.ptr_ty,
            ir.types[x],
        ))) by {
            assert(v.values[x] == u.values[x]);
        }
        assert forall|x: u64, y: u64|
            #![trigger v.ready(x), v.ready(y)]
            v.ready(x) && v.ready(y) && x != y implies v.values[x as int]
            != v.values[y as int] by {
            assert(u.ready(x) && u.ready(y));
        }
        assert forall|k: int| 0 <= k < v.block_of.len() implies (#[trigger] v.block_of[k] matches Some(
            x,
        ) ==> x < v.blocks.len()) by {
            if k != b {
                assert(v.block_of[k] == u.block_of[k]);
            }
        }
        lemma_wf_block(ir, Block { index: b });
        lemma_add_params(ir, order, v, p);
        assert forall|j: int| 0 <= j < n implies (#[trigger] w.blocks[j]).params.len()
            == ir.blocks[order[j] as int].parameters.len() by {
            if j < n - 1 {
                assert(w.blocks[j] == v.blocks[j]);
                assert(v.blocks[j] == u.blocks[j]);
            }
        }
    } else {
        assert(w == blank);
        assert forall|x: u64| !(#[trigger] w.ready(x)) by {}
    }
}

/// The blocks of a function, before their statements are lowered.
pub proof fn lemma_laid_out(ir: IrView, order: Seq<u64>, v: LowerView)
    requires
        laid_out(ir, order, v),
        order.no_duplicates(),
        v.blocks.len() == order.len(),
        0 < order.len() <= u64::MAX,
        v.types.len() <= u64::MAX,
        forall|j: int| 0 <= j < order.len() ==> (#[trigger] order[j]) < ir.blocks.len(),
    ensures
        v.wf(ir),
        placed(v, order),
        lowered_up_to(ir, v, order, 0, 0),
{
    assert forall|j: int| 0 <= j < order.len() implies (#[trigger] order[j]) < v.block_of.len() && (
    v.block_of[order[j] as int] matches Some(k) && k < v.blocks.len()) by {
        assert(v.blocks[j].insts.len() == 0);
    }
    assert forall|j: int, l: int|
        0 <= j < order.len() && 0 <= l < order.len() && j != l implies v.block_of[
        #[trigger] order[j] as int
    ] != v.block_of[#[trigger] order[l] as int] by {
        assert(v.blocks[j].insts.len() == 0);
        assert(v.blocks[l].insts.len() == 0);
    }
    assert forall|x: u64| #[trigger] v.ready(x) implies exists|b: int, k: int|
        passes(ir, b, k, x) by {
        assert(has_param(ir, order, v, x));
        let (j, k) = choose|j: int, k: int|
            0 <= j < v.blocks.len() && 0 <= k < v.blocks[j].params.len() && #[trigger] passes(
                ir,
                order[j] as int,
                k,
                x,
            );
        assert(passes(ir, order[j] as int, k, x));
    }
}

} // verus!
