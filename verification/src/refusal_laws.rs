//! Which functions can be lowered, and why the others cannot.
use vstd::prelude::*;
use vstd::arithmetic::power2::{lemma2_to64, pow2};
use crate::block_laws::lemma_lower_grows;
use crate::function_laws::{lemma_order_short, lemma_places};
use crate::function_lowering::{lower_function, odd_code, some_odd_code};
use crate::ir::model::{binds, lemma_wf, lemma_wf_block, lemma_wf_stmt, passes, IrView};
use crate::ir::order_laws::law_order_is_complete;
use crate::ir::types::{Block, IntWidth, StmtKind, TerminatorView, TypeFull};
use crate::ir::ExecIr;
use crate::lowered_layout::{lemma_block_grows, lemma_terminator_grows, opened};
use crate::lowering::{lowered, operands, ClifBlockView, ClifFunction, ClifTy, LowerView, LoweringError};

verus! {

/// Before statement `n` of the block at `j` of the order, `x` is a parameter of some
/// compiled block, or an output of a statement that stands earlier.
pub open spec fn in_scope(ir: IrView, order: Seq<u64>, j: int, n: int, x: u64) -> bool {
    ||| exists|a: int, k: int| 0 <= a < order.len() && #[trigger] passes(ir, order[a] as int, k, x)
    ||| exists|a: int, k: int|
        0 <= a < order.len() && (a < j || a == j && k < n) && #[trigger] binds(
            ir,
            order[a] as int,
            k,
            x,
        )
}

/// Offsets are below two to the 31, sizes of elements below two to the 63.
pub open spec fn fits(rvalue: StmtKind) -> bool {
    match rvalue {
        StmtKind::LoadHost { offset, .. } => offset < 0x8000_0000,
        StmtKind::StoreHost { offset, .. } => offset < 0x8000_0000,
        StmtKind::PtrAdd { elem_size, .. } => elem_size < 0x8000_0000_0000_0000,
        _ => true,
    }
}

/// Statement `n` of the block at `j` uses what is in scope.
pub open spec fn uses_scope(ir: IrView, order: Seq<u64>, j: int, n: int) -> bool {
    let stmt = ir.stmts[ir.blocks[order[j] as int].stmts[n].index as int];
    forall|i: int|
        0 <= i < operands(ir, stmt.rvalue).len() ==> in_scope(
            ir,
            order,
            j,
            n,
            #[trigger] operands(ir, stmt.rvalue)[i],
        )
}

pub open spec fn fits_at(ir: IrView, order: Seq<u64>, j: int, n: int) -> bool {
    fits(ir.stmts[ir.blocks[order[j] as int].stmts[n].index as int].rvalue)
}

pub open spec fn all_in_scope(ir: IrView, order: Seq<u64>, j: int, n: int, xs: Seq<u64>) -> bool {
    forall|i: int| 0 <= i < xs.len() ==> in_scope(ir, order, j, n, #[trigger] xs[i])
}

/// The end of the block at `j` uses what is in scope.
pub open spec fn ends_in_scope(ir: IrView, order: Seq<u64>, j: int) -> bool {
    let block = ir.blocks[order[j] as int];
    let n = block.stmts.len() as int;
    match block.terminator {
        TerminatorView::Return => true,
        TerminatorView::ReturnCode(reason) => in_scope(ir, order, j, n, reason.index),
        TerminatorView::Br(jump) => all_in_scope(ir, order, j, n, jump.parameters),
        TerminatorView::BrZ(cond, zero, non_zero) => in_scope(ir, order, j, n, cond.index)
            && all_in_scope(ir, order, j, n, zero.parameters) && all_in_scope(
            ir,
            order,
            j,
            n,
            non_zero.parameters,
        ),
    }
}

/// Nothing in the block at `j` is used out of scope.
pub open spec fn block_in_scope(ir: IrView, order: Seq<u64>, j: int) -> bool {
    &&& forall|n: int|
        0 <= n < ir.blocks[order[j] as int].stmts.len() ==> #[trigger] uses_scope(ir, order, j, n)
    &&& ends_in_scope(ir, order, j)
}

/// Every number in the block at `j` fits its instruction.
pub open spec fn block_fits(ir: IrView, order: Seq<u64>, j: int) -> bool {
    forall|n: int|
        0 <= n < ir.blocks[order[j] as int].stmts.len() ==> #[trigger] fits_at(ir, order, j, n)
}

/// What has been lowered is what is in scope.
pub open spec fn knows(ir: IrView, order: Seq<u64>, j: int, n: int, v: LowerView) -> bool {
    &&& v.values.len() == ir.types.len()
    &&& forall|x: u64| #[trigger] v.ready(x) <==> in_scope(ir, order, j, n, x)
}

proof fn lemma_bound(v: LowerView, outputs: Seq<u64>, vals: Seq<u64>, n: int)
    requires
        0 <= n <= outputs.len(),
        forall|i: int| 0 <= i < outputs.len() ==> (#[trigger] outputs[i]) < v.values.len(),
    ensures
        v.bind(outputs, vals, n).values.len() == v.values.len(),
        v.bind(outputs, vals, n).current == v.current,
        v.bind(outputs, vals, n).blocks == v.blocks,
        v.bind(outputs, vals, n).slots == v.slots,
        forall|x: u64| #[trigger]
            v.bind(outputs, vals, n).ready(x) <==> v.ready(x) || exists|i: int|
                0 <= i < n && #[trigger] outputs[i] == x,
    decreases n,
{
    if n > 0 {
        lemma_bound(v, outputs, vals, n - 1);
        let before = v.bind(outputs, vals, n - 1);
        let after = v.bind(outputs, vals, n);
        assert forall|x: u64| #[trigger] after.ready(x) <==> v.ready(x) || exists|i: int|
            0 <= i < n && #[trigger] outputs[i] == x by {
            assert(before.ready(x) <==> v.ready(x) || exists|i: int|
                0 <= i < n - 1 && #[trigger] outputs[i] == x);
            assert(outputs[n - 1] == outputs[n - 1]);
            if x == outputs[n - 1] {
                assert(after.ready(x));
            } else {
                assert(after.ready(x) == before.ready(x));
            }
        }
    }
}

/// Lowering a statement succeeds if and only if it uses what is in scope and its
/// numbers fit.
#[verifier::spinoff_prover]
#[verifier::rlimit(60)]
proof fn lemma_stmt(ir: IrView, order: Seq<u64>, j: int, n: int, v: LowerView)
    requires
        ir.wf(),
        0 <= j < order.len(),
        order[j] < ir.blocks.len(),
        0 <= n < ir.blocks[order[j] as int].stmts.len(),
        v.current < v.blocks.len(),
        knows(ir, order, j, n, v),
    ensures
        ({
            let stmt = ir.stmts[ir.blocks[order[j] as int].stmts[n].index as int];
            match v.lower_stmt(ir, stmt) {
                Ok(w) => {
                    &&& uses_scope(ir, order, j, n)
                    &&& fits_at(ir, order, j, n)
                    &&& knows(ir, order, j, n + 1, w)
                    &&& w.current == v.current
                    &&& w.blocks.len() == v.blocks.len()
                    &&& w.slots == v.slots
                },
                Err(error) => match error {
                    LoweringError::ValueNotLowered => !uses_scope(ir, order, j, n),
                    LoweringError::OffsetTooLarge => !fits_at(ir, order, j, n),
                    LoweringError::ElementTooLarge => !fits_at(ir, order, j, n),
                    _ => false,
                },
            }
        }),
{
    let stmts = ir.blocks[order[j] as int].stmts;
    let stmt = ir.stmts[stmts[n].index as int];
    lemma_wf_block(ir, Block { index: order[j] });
    assert(stmts[n].index < ir.stmts.len());
    lemma_wf_stmt(ir, stmts[n].index as int);
    let ops = operands(ir, stmt.rvalue);
    assert(v.all_ready(ops) == uses_scope(ir, order, j, n)) by {
        if v.all_ready(ops) {
            assert forall|i: int| 0 <= i < ops.len() implies in_scope(
                ir,
                order,
                j,
                n,
                #[trigger] ops[i],
            ) by {
                assert(v.ready(ops[i]));
            }
        }
        if uses_scope(ir, order, j, n) {
            assert forall|i: int| 0 <= i < ops.len() implies v.ready(#[trigger] ops[i]) by {
                assert(in_scope(ir, order, j, n, ops[i]));
            }
        }
    }
    lemma_lower_grows(ir, v, stmt.rvalue);
    let (v1, vals) = v.lower(ir, stmt.rvalue);
    lemma_after(ir, order, j, n, v, v1, vals);
}

/// The outputs of a statement come into scope behind it.
proof fn lemma_after(
    ir: IrView,
    order: Seq<u64>,
    j: int,
    n: int,
    v: LowerView,
    v1: LowerView,
    vals: Seq<u64>,
)
    requires
        0 <= j < order.len(),
        order[j] < ir.blocks.len(),
        0 <= n < ir.blocks[order[j] as int].stmts.len(),
        ir.stmt_ok(ir.stmts[ir.blocks[order[j] as int].stmts[n].index as int]),
        v1.values == v.values,
        knows(ir, order, j, n, v),
    ensures
        ({
            let stmt = ir.stmts[ir.blocks[order[j] as int].stmts[n].index as int];
            let w = v1.bind(stmt.outputs, vals, stmt.outputs.len() as int);
            &&& knows(ir, order, j, n + 1, w)
            &&& w.current == v1.current
            &&& w.blocks == v1.blocks
            &&& w.slots == v1.slots
        }),
{
    let stmt = ir.stmts[ir.blocks[order[j] as int].stmts[n].index as int];
    let w = v1.bind(stmt.outputs, vals, stmt.outputs.len() as int);
    lemma_bound(v1, stmt.outputs, vals, stmt.outputs.len() as int);
    assert forall|x: u64| #[trigger] w.ready(x) <==> in_scope(ir, order, j, n + 1, x) by {
        assert(v1.ready(x) == v.ready(x));
        if w.ready(x) && !v.ready(x) {
            let i = choose|i: int| 0 <= i < stmt.outputs.len() && #[trigger] stmt.outputs[i] == x;
            assert(stmt.outputs.contains(x));
            assert(binds(ir, order[j] as int, n, x));
        }
        if v.ready(x) {
            lemma_scope_grows(ir, order, j, n, x);
        }
        if in_scope(ir, order, j, n + 1, x) && !in_scope(ir, order, j, n, x) {
            let (a, k) = choose|a: int, k: int|
                0 <= a < order.len() && (a < j || a == j && k < n + 1) && #[trigger] binds(
                    ir,
                    order[a] as int,
                    k,
                    x,
                );
            assert(a == j && k == n);
            let i = stmt.outputs.index_of(x);
            assert(stmt.outputs[i] == x);
        }
    }
}

proof fn lemma_scope_grows(ir: IrView, order: Seq<u64>, j: int, n: int, x: u64)
    requires
        in_scope(ir, order, j, n, x),
    ensures
        in_scope(ir, order, j, n + 1, x),
{
    if !(exists|a: int, k: int|
        0 <= a < order.len() && #[trigger] passes(ir, order[a] as int, k, x)) {
        let (a, k) = choose|a: int, k: int|
            0 <= a < order.len() && (a < j || a == j && k < n) && #[trigger] binds(
                ir,
                order[a] as int,
                k,
                x,
            );
        assert(binds(ir, order[a] as int, k, x));
    }
}

proof fn lemma_stmts(ir: IrView, order: Seq<u64>, j: int, n: int, v: LowerView)
    requires
        ir.wf(),
        0 <= j < order.len(),
        order[j] < ir.blocks.len(),
        0 <= n <= ir.blocks[order[j] as int].stmts.len(),
        v.current < v.blocks.len(),
        knows(ir, order, j, 0, v),
    ensures
        match v.lower_stmts(ir, ir.blocks[order[j] as int].stmts, n) {
            Ok(w) => {
                &&& forall|i: int| 0 <= i < n ==> #[trigger] uses_scope(ir, order, j, i)
                &&& forall|i: int| 0 <= i < n ==> #[trigger] fits_at(ir, order, j, i)
                &&& knows(ir, order, j, n, w)
                &&& w.current == v.current
                &&& w.blocks.len() == v.blocks.len()
                &&& w.slots == v.slots
            },
            Err(error) => match error {
                LoweringError::ValueNotLowered => !block_in_scope(ir, order, j),
                LoweringError::OffsetTooLarge => !block_fits(ir, order, j),
                LoweringError::ElementTooLarge => !block_fits(ir, order, j),
                _ => false,
            },
        },
    decreases n,
{
    if n > 0 {
        lemma_stmts(ir, order, j, n - 1, v);
        match v.lower_stmts(ir, ir.blocks[order[j] as int].stmts, n - 1) {
            Ok(u) => {
                lemma_stmt(ir, order, j, n - 1, u);
            },
            Err(_) => {},
        }
    }
}

/// The scope of a block starts where that of the block before ends.
proof fn lemma_next_block(ir: IrView, order: Seq<u64>, j: int, x: u64)
    requires
        0 <= j < order.len(),
        order[j] < ir.blocks.len(),
    ensures
        in_scope(ir, order, j + 1, 0, x) == in_scope(
            ir,
            order,
            j,
            ir.blocks[order[j] as int].stmts.len() as int,
            x,
        ),
{
    let n = ir.blocks[order[j] as int].stmts.len() as int;
    if !(exists|a: int, k: int|
        0 <= a < order.len() && #[trigger] passes(ir, order[a] as int, k, x)) {
        if in_scope(ir, order, j, n, x) {
            let (a, k) = choose|a: int, k: int|
                0 <= a < order.len() && (a < j || a == j && k < n) && #[trigger] binds(
                    ir,
                    order[a] as int,
                    k,
                    x,
                );
            assert(a < j + 1 && binds(ir, order[a] as int, k, x));
        }
        if in_scope(ir, order, j + 1, 0, x) {
            let (a, k) = choose|a: int, k: int|
                0 <= a < order.len() && (a < j + 1 || a == j + 1 && k < 0) && #[trigger] binds(
                    ir,
                    order[a] as int,
                    k,
                    x,
                );
            assert(binds(ir, order[a] as int, k, x));
            assert(a < j || a == j && k < n);
        }
    }
}

proof fn lemma_ready_list(ir: IrView, order: Seq<u64>, j: int, n: int, v: LowerView, xs: Seq<u64>)
    requires
        knows(ir, order, j, n, v),
    ensures
        v.all_ready(xs) == all_in_scope(ir, order, j, n, xs),
{
    if v.all_ready(xs) {
        assert forall|i: int| 0 <= i < xs.len() implies in_scope(ir, order, j, n, #[trigger] xs[i]) by {
            assert(v.ready(xs[i]));
        }
    }
    if all_in_scope(ir, order, j, n, xs) {
        assert forall|i: int| 0 <= i < xs.len() implies v.ready(#[trigger] xs[i]) by {
            assert(in_scope(ir, order, j, n, xs[i]));
        }
    }
}

proof fn lemma_block(ir: IrView, order: Seq<u64>, j: int, v: LowerView)
    requires
        ir.wf(),
        0 <= j < order.len(),
        order[j] < ir.blocks.len(),
        order[j] < v.block_of.len(),
        v.block_of[order[j] as int] matches Some(k) && k < v.blocks.len(),
        knows(ir, order, j, 0, v),
    ensures
        match v.lower_block(ir, order[j]) {
            Ok(w) => {
                &&& block_in_scope(ir, order, j)
                &&& block_fits(ir, order, j)
                &&& knows(ir, order, j + 1, 0, w)
                &&& w.slots == v.slots
            },
            Err(error) => match error {
                LoweringError::ValueNotLowered => !block_in_scope(ir, order, j),
                LoweringError::OffsetTooLarge => !block_fits(ir, order, j),
                LoweringError::ElementTooLarge => !block_fits(ir, order, j),
                LoweringError::HaltReasonType => true,
                LoweringError::EntryParameters => false,
            },
        },
{
    let data = ir.blocks[order[j] as int];
    let n = data.stmts.len() as int;
    let start = opened(v, order[j]);
    assert(start.values == v.values);
    assert forall|x: u64| #[trigger] start.ready(x) <==> in_scope(ir, order, j, 0, x) by {
        assert(start.ready(x) == v.ready(x));
    }
    lemma_stmts(ir, order, j, n, start);
    if let Ok(u) = start.lower_stmts(ir, data.stmts, n) {
        match data.terminator {
            TerminatorView::Return => {},
            TerminatorView::ReturnCode(reason) => {
                assert(u.ready(reason.index) == in_scope(ir, order, j, n, reason.index));
            },
            TerminatorView::Br(jump) => {
                lemma_ready_list(ir, order, j, n, u, jump.parameters);
            },
            TerminatorView::BrZ(cond, zero, non_zero) => {
                assert(u.ready(cond.index) == in_scope(ir, order, j, n, cond.index));
                lemma_ready_list(ir, order, j, n, u, zero.parameters);
                lemma_ready_list(ir, order, j, n, u, non_zero.parameters);
            },
        }
        if let Ok(w) = u.lower_terminator(ir, data.terminator) {
            lemma_terminator_grows(ir, u, data.terminator, w);
            assert forall|x: u64| #[trigger] w.ready(x) <==> in_scope(ir, order, j + 1, 0, x) by {
                assert(w.ready(x) == u.ready(x));
                lemma_next_block(ir, order, j, x);
            }
        }
    }
}

proof fn lemma_blocks(ir: IrView, order: Seq<u64>, v: LowerView, n: int)
    requires
        ir.wf(),
        0 <= n <= order.len(),
        forall|j: int|
            0 <= j < order.len() ==> (#[trigger] order[j]) < ir.blocks.len() && order[j]
                < v.block_of.len() && (v.block_of[order[j] as int] matches Some(k) && k
                < v.blocks.len()),
        knows(ir, order, 0, 0, v),
    ensures
        match v.lower_blocks(ir, order, n) {
            Ok(w) => {
                &&& forall|j: int| 0 <= j < n ==> #[trigger] block_in_scope(ir, order, j)
                &&& forall|j: int| 0 <= j < n ==> #[trigger] block_fits(ir, order, j)
                &&& knows(ir, order, n, 0, w)
                &&& w.block_of == v.block_of
                &&& w.blocks.len() == v.blocks.len()
                &&& w.slots == v.slots
                &&& forall|k: int|
                    0 <= k < v.blocks.len() ==> (#[trigger] w.blocks[k]).cold == v.blocks[k].cold
            },
            Err(error) => match error {
                LoweringError::ValueNotLowered => exists|j: int|
                    0 <= j < n && !#[trigger] block_in_scope(ir, order, j),
                LoweringError::OffsetTooLarge => exists|j: int|
                    0 <= j < n && !#[trigger] block_fits(ir, order, j),
                LoweringError::ElementTooLarge => exists|j: int|
                    0 <= j < n && !#[trigger] block_fits(ir, order, j),
                LoweringError::HaltReasonType => true,
                LoweringError::EntryParameters => false,
            },
        },
    decreases n,
{
    if n > 0 {
        lemma_blocks(ir, order, v, n - 1);
        if let Ok(u) = v.lower_blocks(ir, order, n - 1) {
            assert(order[n - 1] < v.block_of.len());
            lemma_block(ir, order, n - 1, u);
            if let Ok(w) = u.lower_block(ir, order[n - 1]) {
                lemma_block_grows(ir, u, order[n - 1], w);
                let start = opened(u, order[n - 1]);
                assert forall|k: int| 0 <= k < v.blocks.len() implies (#[trigger] w.blocks[k]).cold
                    == v.blocks[k].cold by {
                    assert(u.blocks[k].cold == v.blocks[k].cold);
                    if k != start.current {
                        assert(w.blocks[k] == start.blocks[k]);
                    }
                }
            }
        }
    }
}

proof fn lemma_params_ready(ir: IrView, v: LowerView, params: Seq<u64>, n: int)
    requires
        0 <= n <= params.len(),
        v.blocks.len() > 0,
        forall|i: int| 0 <= i < params.len() ==> (#[trigger] params[i]) < v.values.len(),
    ensures
        v.add_params(ir, params, n).values.len() == v.values.len(),
        v.add_params(ir, params, n).slots == v.slots,
        v.add_params(ir, params, n).blocks.len() == v.blocks.len(),
        forall|k: int|
            0 <= k < v.blocks.len() ==> (#[trigger] v.add_params(ir, params, n).blocks[k]).cold
                == v.blocks[k].cold,
        forall|x: u64| #[trigger]
            v.add_params(ir, params, n).ready(x) <==> v.ready(x) || exists|i: int|
                0 <= i < n && #[trigger] params[i] == x,
    decreases n,
{
    if n > 0 {
        lemma_params_ready(ir, v, params, n - 1);
        let before = v.add_params(ir, params, n - 1);
        let after = v.add_params(ir, params, n);
        assert forall|x: u64| #[trigger] after.ready(x) <==> v.ready(x) || exists|i: int|
            0 <= i < n && #[trigger] params[i] == x by {
            assert(before.ready(x) <==> v.ready(x) || exists|i: int|
                0 <= i < n - 1 && #[trigger] params[i] == x);
            assert(params[n - 1] == params[n - 1]);
            if x == params[n - 1] {
                assert(after.ready(x));
            } else {
                assert(after.ready(x) == before.ready(x));
            }
        }
    }
}

/// Once the blocks are there, their parameters are.
proof fn lemma_blocks_ready(ir: IrView, ptr_ty: ClifTy, order: Seq<u64>, n: int)
    requires
        ir.wf(),
        0 <= n <= order.len(),
        forall|j: int| 0 <= j < order.len() ==> (#[trigger] order[j]) < ir.blocks.len(),
    ensures
        ({
            let w = LowerView::blank(ir, ptr_ty).add_blocks(ir, order, n);
            &&& w.values.len() == ir.types.len()
            &&& w.slots == LowerView::blank(ir, ptr_ty).slots
            &&& w.blocks.len() == n
            &&& forall|a: int|
                0 <= a < n ==> (#[trigger] w.blocks[a]).cold == ir.blocks[order[a] as int].is_cold
            &&& forall|x: u64| #[trigger]
                w.ready(x) <==> exists|a: int, k: int|
                    0 <= a < n && #[trigger] passes(ir, order[a] as int, k, x)
        }),
    decreases n,
{
    let w = LowerView::blank(ir, ptr_ty).add_blocks(ir, order, n);
    if n > 0 {
        lemma_blocks_ready(ir, ptr_ty, order, n - 1);
        let u = LowerView::blank(ir, ptr_ty).add_blocks(ir, order, n - 1);
        let b = order[n - 1];
        lemma_wf_block(ir, Block { index: b });
        let params = ir.blocks[b as int].parameters;
        let v = LowerView {
            blocks: u.blocks.push(
                ClifBlockView {
                    params: Seq::empty(),
                    cold: ir.blocks[b as int].is_cold,
                    insts: Seq::empty(),
                },
            ),
            block_of: u.block_of.update(b as int, Some(u.blocks.len() as u64)),
            ..u
        };
        assert(w == v.add_params(ir, params, params.len() as int));
        lemma_params_ready(ir, v, params, params.len() as int);
        assert forall|a: int| 0 <= a < n implies (#[trigger] w.blocks[a]).cold
            == ir.blocks[order[a] as int].is_cold by {
            assert(w.blocks[a].cold == v.blocks[a].cold);
            if a < n - 1 {
                assert(v.blocks[a] == u.blocks[a]);
            }
        }
        assert forall|x: u64| #[trigger] w.ready(x) <==> exists|a: int, k: int|
            0 <= a < n && #[trigger] passes(ir, order[a] as int, k, x) by {
            assert(v.ready(x) == u.ready(x));
            if u.ready(x) {
                let (a, k) = choose|a: int, k: int|
                    0 <= a < n - 1 && #[trigger] passes(ir, order[a] as int, k, x);
                assert(0 <= a < n && passes(ir, order[a] as int, k, x));
            }
            if w.ready(x) && !u.ready(x) {
                let i = choose|i: int| 0 <= i < params.len() && #[trigger] params[i] == x;
                assert(passes(ir, order[n - 1] as int, i, x));
            }
            if exists|a: int, k: int| 0 <= a < n && #[trigger] passes(ir, order[a] as int, k, x) {
                let (a, k) = choose|a: int, k: int|
                    0 <= a < n && #[trigger] passes(ir, order[a] as int, k, x);
                if a == n - 1 {
                    assert(params[k] == x);
                } else {
                    assert(0 <= a < n - 1 && passes(ir, order[a] as int, k, x));
                }
            }
        }
    } else {
        assert forall|x: u64| !(#[trigger] w.ready(x)) by {}
    }
}

/// What is known of a function once its blocks are there.
proof fn lemma_set_up(ir: IrView, ptr_ty: ClifTy)
    requires
        ir.wf(),
    ensures
        ({
            let order = ir.compile_order();
            let v = LowerView::blank(ir, ptr_ty).add_blocks(ir, order, order.len() as int);
            &&& forall|j: int|
                0 <= j < order.len() ==> (#[trigger] order[j]) < ir.blocks.len() && order[j]
                    < v.block_of.len() && (v.block_of[order[j] as int] matches Some(k) && k
                    < v.blocks.len())
            &&& knows(ir, order, 0, 0, v)
            &&& v.slots == LowerView::blank(ir, ptr_ty).slots
            &&& v.blocks.len() == order.len()
            &&& forall|a: int|
                0 <= a < order.len() ==> (#[trigger] v.blocks[a]).cold == ir.blocks[order[a] as int].is_cold
        }),
{
    let order = ir.compile_order();
    law_order_is_complete(ir);
    lemma_wf(ir);
    assert forall|j: int| 0 <= j < order.len() implies (#[trigger] order[j]) < ir.blocks.len() by {
        assert(order.contains(order[j]));
    }
    lemma_order_short(ir, order);
    let len = order.len() as int;
    let v = LowerView::blank(ir, ptr_ty).add_blocks(ir, order, len);
    lemma_places(ir, ptr_ty, order, len);
    lemma_blocks_ready(ir, ptr_ty, order, len);
    assert(knows(ir, order, 0, 0, v)) by {
        assert forall|x: u64| #[trigger] v.ready(x) <==> in_scope(ir, order, 0, 0, x) by {
            if in_scope(ir, order, 0, 0, x) && !v.ready(x) {
                let (a, k) = choose|a: int, k: int|
                    0 <= a < order.len() && (a < 0 || a == 0 && k < 0) && #[trigger] binds(
                        ir,
                        order[a] as int,
                        k,
                        x,
                    );
                assert(false);
            }
        }
    }
    assert forall|j: int| 0 <= j < order.len() implies (#[trigger] order[j]) < ir.blocks.len()
        && order[j] < v.block_of.len() && (v.block_of[order[j] as int] matches Some(k) && k
        < v.blocks.len()) by {}
}

/// A function is lowered if its entry block takes the six arguments, every value is
/// used after it was computed, every number fits its instruction and every halt
/// reason is a 32-bit number. Whoever is told otherwise is told why.
pub proof fn law_what_is_lowered(
    exec_ir: &ExecIr,
    ptr_ty: ClifTy,
    r: Result<ClifFunction, LoweringError>,
)
    requires
        exec_ir.wf(),
        call_ensures(lower_function, (exec_ir, ptr_ty), r),
    ensures
        ({
            let ir = exec_ir@;
            let order = ir.compile_order();
            match r {
                Ok(_) => {
                    &&& ir.blocks[0].parameters.len() == 6
                    &&& forall|j: int| 0 <= j < order.len() ==> #[trigger] block_in_scope(ir, order, j)
                    &&& forall|j: int| 0 <= j < order.len() ==> #[trigger] block_fits(ir, order, j)
                    &&& forall|j: int|
                        0 <= j < order.len() ==> (
                        ir.blocks[#[trigger] order[j] as int].terminator matches
                            TerminatorView::ReturnCode(reason) ==> (
                        ir.types[reason.index as int] matches TypeFull::Int(width) ==> width
                            == IntWidth::W32))
                },
                Err(LoweringError::EntryParameters) => ir.blocks[0].parameters.len() != 6,
                Err(LoweringError::ValueNotLowered) => exists|j: int|
                    0 <= j < order.len() && !#[trigger] block_in_scope(ir, order, j),
                Err(LoweringError::OffsetTooLarge) => exists|j: int|
                    0 <= j < order.len() && !#[trigger] block_fits(ir, order, j),
                Err(LoweringError::ElementTooLarge) => exists|j: int|
                    0 <= j < order.len() && !#[trigger] block_fits(ir, order, j),
                Err(LoweringError::HaltReasonType) => exists|j: int|
                    0 <= j < order.len() && (
                    ir.blocks[#[trigger] order[j] as int].terminator matches
                        TerminatorView::ReturnCode(reason) && ir.types[reason.index as int]
                        != TypeFull::Int(IntWidth::W32)),
            }
        }),
{
    let ir = exec_ir@;
    let order = ir.compile_order();
    let v = LowerView::blank(ir, ptr_ty).add_blocks(ir, order, order.len() as int);
    lemma_set_up(ir, ptr_ty);
    lemma_blocks(ir, order, v, order.len() as int);
    if some_odd_code(ir) {
        let b = choose|b: u64| #[trigger]
            order.contains(b) && odd_code(ir, ir.blocks[b as int].terminator);
        assert(order[order.index_of(b)] == b);
    }
}

/// The lowered blocks stand in compile order, and those that are cold stay cold.
pub proof fn law_cold_blocks(exec_ir: &ExecIr, ptr_ty: ClifTy, func: ClifFunction)
    requires
        exec_ir.wf(),
        call_ensures(lower_function, (exec_ir, ptr_ty), Ok(func)),
    ensures
        func.blocks@.len() == exec_ir@.compile_order().len(),
        forall|a: int|
            0 <= a < func.blocks@.len() ==> (#[trigger] func.blocks@[a])@.cold
                == exec_ir@.blocks[exec_ir@.compile_order()[a] as int].is_cold,
{
    let ir = exec_ir@;
    let order = ir.compile_order();
    let v = LowerView::blank(ir, ptr_ty).add_blocks(ir, order, order.len() as int);
    lemma_set_up(ir, ptr_ty);
    lemma_blocks(ir, order, v, order.len() as int);
    let w = lowered(ir, ptr_ty)->Ok_0;
    assert forall|a: int| 0 <= a < func.blocks@.len() implies (#[trigger] func.blocks@[a])@.cold
        == ir.blocks[order[a] as int].is_cold by {
        assert(w.blocks[a] == func.blocks@[a]@);
        assert(v.blocks[a].cold == ir.blocks[order[a] as int].is_cold);
    }
}

/// Stack space keeps its size and its alignment.
pub proof fn law_stack_space(exec_ir: &ExecIr, ptr_ty: ClifTy, func: ClifFunction, i: int)
    requires
        exec_ir.wf(),
        call_ensures(lower_function, (exec_ir, ptr_ty), Ok(func)),
        0 <= i < exec_ir@.slots.len(),
    ensures
        func.slots@.len() == exec_ir@.slots.len(),
        func.slots@[i].size == exec_ir@.slots[i].size,
        func.slots@[i].align_shift < 8,
        pow2(func.slots@[i].align_shift as nat) <= (
        if exec_ir@.slots[i].align == 0 {
            1
        } else {
            exec_ir@.slots[i].align as int
        }) < 2 * pow2(func.slots@[i].align_shift as nat),
{
    let ir = exec_ir@;
    let order = ir.compile_order();
    let v = LowerView::blank(ir, ptr_ty).add_blocks(ir, order, order.len() as int);
    lemma_set_up(ir, ptr_ty);
    lemma_blocks(ir, order, v, order.len() as int);
    lemma2_to64();
}

} // verus!
