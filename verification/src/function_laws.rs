//! A lowered function does what the function of the IR does.
use vstd::prelude::*;
use crate::block_laws::{
    apart, behaves, carried, clif_all, clif_do, framed, grown, law_lowering_keeps_statement,
    lemma_lower_grows, lemma_operand, set_up, tidy, tracks, ClifState, Image,
};
use crate::function_lowering::{lemma_blocks_fail, lemma_stmts_fail};
use crate::ir::execution::{bound, decided, is_set, Flow, Host, HostMem};
use crate::ir::model::{
    binds, lemma_wf, lemma_wf_block, passes, single_assignment, IrView, StmtView,
};
use crate::ir::order_laws::{law_order_is_complete, lemma_order_closed};
use crate::ir::semantics::{Machine, Val};
use crate::ir::types::{Arg, Block, IntCmp, JumpView, TerminatorView, TypeFull};
use crate::lowered_layout::{
    extends, laid_out, lemma_add_blocks, lemma_bind_rest, lemma_block_grows,
    lemma_block_stays, lemma_blocks_grow, lemma_extends_on, lemma_grown_valid, lemma_laid_out,
    lemma_lower_block, lemma_lower_blocks, lemma_lower_stmts, lemma_next_stmt, lemma_opened,
    lemma_stmts_grow, lemma_terminator_grows_after, lowered_up_to, opened, placed,
};
use crate::lowering::{
    lowered, ClifBlockView, ClifInst, ClifList, ClifOp, ClifTy, LowerView, LoweringError,
};
use crate::lowering_laws::{byte_of, crisp, new_insts, stands_for, tag_test, tags_apart};

verus! {

/// Where a run of lowered code is: in a block with that many instructions
/// done, or back at the caller. Code without a meaning gets stuck.
pub enum ClifFlow {
    At { block: int, done: int, c: ClifState },
    Returned { code: u64, c: ClifState },
    Stuck,
}

/// The values once the first `n` parameters hold what was passed.
pub open spec fn passed(
    vals: Map<u64, u64>,
    params: Seq<u64>,
    args: Seq<u64>,
    n: nat,
) -> Map<u64, u64>
    decreases n,
{
    if n == 0 {
        vals
    } else {
        passed(vals, params, args, (n - 1) as nat).insert(params[n - 1], vals[args[n - 1]])
    }
}

/// Where a branch of lowered code leads.
pub open spec fn enter(f: LowerView, target: u64, args: ClifList, c: ClifState) -> ClifFlow {
    let params = f.blocks[target as int].params;
    let items = f.lists[args.index as int];
    if params.len() == items.len() {
        let vals = passed(c.vals, params, items, params.len());
        ClifFlow::At { block: target as int, done: 0, c: ClifState { vals, ..c } }
    } else {
        ClifFlow::Stuck
    }
}

/// One instruction.
pub open spec fn clif_advance(image: Image, host: Host, f: LowerView, flow: ClifFlow) -> ClifFlow {
    match flow {
        ClifFlow::At { block, done, c } => {
            let inst = f.blocks[block].insts[done];
            match inst.op {
                ClifOp::Return { value } => ClifFlow::Returned { code: c.vals[value], c },
                ClifOp::Jump { target, args } => enter(f, target, args, c),
                ClifOp::Brif { cond, non_zero, non_zero_args, zero, zero_args } => if c.vals[cond]
                    != 0 {
                    enter(f, non_zero, non_zero_args, c)
                } else {
                    enter(f, zero, zero_args, c)
                },
                _ => match clif_do(image, host, f.types, f.lists, inst, c) {
                    Some(after) => ClifFlow::At { block, done: done + 1, c: after },
                    None => ClifFlow::Stuck,
                },
            }
        },
        _ => flow,
    }
}

/// Where a run is `n` instructions after `flow`.
pub open spec fn clif_after(
    image: Image,
    host: Host,
    f: LowerView,
    flow: ClifFlow,
    n: nat,
) -> ClifFlow
    decreases n,
{
    if n == 0 {
        flow
    } else {
        clif_advance(image, host, f, clif_after(image, host, f, flow, (n - 1) as nat))
    }
}

proof fn lemma_clif_after_on(
    image: Image,
    host: Host,
    f: LowerView,
    flow: ClifFlow,
    a: nat,
    b: nat,
)
    ensures
        clif_after(image, host, f, flow, a + b) == clif_after(
            image,
            host,
            f,
            clif_after(image, host, f, flow, a),
            b,
        ),
    decreases b,
{
    if b > 0 {
        lemma_clif_after_on(image, host, f, flow, a, (b - 1) as nat);
    }
}

/// Instructions of a block run one after the other.
proof fn lemma_insts_run(
    image: Image,
    host: Host,
    f: LowerView,
    block: int,
    done: int,
    insts: Seq<ClifInst>,
    c: ClifState,
)
    requires
        0 <= done,
        done + insts.len() <= f.blocks[block].insts.len(),
        forall|i: int|
            0 <= i < insts.len() ==> #[trigger] f.blocks[block].insts[done + i] == insts[i],
        clif_all(image, host, f.types, f.lists, insts, c) is Some,
    ensures
        clif_after(image, host, f, ClifFlow::At { block, done, c }, insts.len()) == (ClifFlow::At {
            block,
            done: done + insts.len(),
            c: clif_all(image, host, f.types, f.lists, insts, c)->0,
        }),
    decreases insts.len(),
{
    if insts.len() > 0 {
        let n = insts.len() - 1;
        let first = insts.drop_last();
        assert forall|i: int| 0 <= i < first.len() implies #[trigger] f.blocks[block].insts[done
            + i] == first[i] by {
            assert(first[i] == insts[i]);
        }
        lemma_insts_run(image, host, f, block, done, first, c);
        assert(f.blocks[block].insts[done + n] == insts[n]);
    }
}

/// What a statement does not bind stays.
proof fn lemma_exec_framed(ir: IrView, host: Host, stmt: StmtView, m: Machine, mem: HostMem, x: u64)
    requires
        ir.exec(host, stmt, m, mem) is Some,
        stmt.outputs.len() == ir.output_types(stmt.rvalue).len(),
        !stmt.outputs.contains(x),
    ensures
        ({
            let (m2, mem2) = ir.exec(host, stmt, m, mem)->0;
            &&& m2.env.contains_key(x) == m.env.contains_key(x)
            &&& m2.env[x] == m.env[x]
        }),
{
    if stmt.outputs.len() > 0 {
        assert(stmt.outputs.contains(stmt.outputs[0]));
    }
    if stmt.outputs.len() > 1 {
        assert(stmt.outputs.contains(stmt.outputs[1]));
    }
}

/// A lowered function that is where the IR is, seen while it is lowered.
proof fn lemma_tracks_part(
    ir: IrView,
    v: LowerView,
    f: LowerView,
    image: Image,
    m: Machine,
    mem: HostMem,
    c: ClifState,
)
    requires
        tracks(ir, f, image, m, mem, c),
        v.wf(ir),
        apart(v),
        extends(v, f),
        v.ready(Arg::ExecState.spec_value().index),
    ensures
        tracks(ir, v, image, m, mem, c),
{
    let es = Arg::ExecState.spec_value().index;
    assert(f.values[es as int] == v.values[es as int]);
    assert forall|x: u64| #[trigger] v.ready(x) && m.env.contains_key(x) implies c.vals.contains_key(
        v.values[x as int]->0,
    ) && stands_for(c.vals[v.values[x as int]->0], m.env[x]) && (match ir.types[x as int] {
        TypeFull::Int(width) => m.env[x] matches Val::Int(number) && number <= width.mask(),
        TypeFull::Bool => m.env[x] is Bool && crisp(ir, x, c.vals[v.values[x as int]->0]),
        TypeFull::HostPtr(_) => m.env[x] is Int,
    }) by {
        assert(f.ready(x));
        assert(f.values[x as int] == v.values[x as int]);
    }
}

/// One statement of a function.
proof fn lemma_statement(
    ir: IrView,
    v: LowerView,
    w: LowerView,
    f: LowerView,
    image: Image,
    host: Host,
    stmt: StmtView,
    m: Machine,
    mem: HostMem,
    c: ClifState,
) -> (c2: ClifState)
    requires
        tracks(ir, f, image, m, mem, c),
        image.linked(),
        behaves(host),
        ir.wf(),
        ir.stmts.contains(stmt),
        ir.stmt_ok(stmt),
        !stmt.outputs.contains(Arg::ExecState.spec_value().index),
        tags_apart(ir, stmt.rvalue),
        v.wf(ir),
        apart(v),
        v.ready(Arg::ExecState.spec_value().index),
        v.lower_stmt(ir, stmt) == Ok::<LowerView, LoweringError>(w),
        w.wf(ir),
        apart(w),
        extends(v, w),
        extends(w, f),
        forall|i: int| 0 <= i < stmt.outputs.len() ==> w.ready(#[trigger] stmt.outputs[i]),
        f.types.len() + 8 <= u64::MAX,
        f.lists.len() + 8 <= u64::MAX,
        ir.exec(host, stmt, m, mem) is Some,
    ensures
        clif_all(image, host, f.types, f.lists, new_insts(v, w), c) == Some(c2),
        ({
            let (m2, mem2) = ir.exec(host, stmt, m, mem)->0;
            tracks(ir, f, image, m2, mem2, c2)
        }),
{
    lemma_extends_on(v, w, f);
    lemma_tracks_part(ir, v, f, image, m, mem, c);
    let (v1, outs) = v.lower(ir, stmt.rvalue);
    lemma_bind_rest(v1, stmt.outputs, outs, stmt.outputs.len() as int);
    assert(w.types == v1.types && w.lists == v1.lists && w.blocks == v1.blocks);
    assert(set_up(ir, v, image, host, f.types, f.lists, stmt, m, mem, c));
    law_lowering_keeps_statement(ir, v, image, host, f.types, f.lists, stmt, m, mem, c);
    let (m2, mem2) = ir.exec(host, stmt, m, mem)->0;
    assert(carried(ir, v, image, host, f.types, f.lists, stmt, c, m2, mem2));
    let c2 = clif_all(image, host, f.types, f.lists, new_insts(v, v1), c)->0;
    assert(tracks(ir, w, image, m2, mem2, c2));
    assert(framed(v.types.len(), v1.types.len(), c.vals, c2.vals));
    assert forall|x: u64| #[trigger] f.ready(x) && m2.env.contains_key(x) implies c2.vals.contains_key(
        f.values[x as int]->0,
    ) && stands_for(c2.vals[f.values[x as int]->0], m2.env[x]) && (match ir.types[x as int] {
        TypeFull::Int(width) => m2.env[x] matches Val::Int(number) && number <= width.mask(),
        TypeFull::Bool => m2.env[x] is Bool && crisp(ir, x, c2.vals[f.values[x as int]->0]),
        TypeFull::HostPtr(_) => m2.env[x] is Int,
    }) by {
        if w.ready(x) {
            assert(f.values[x as int] == w.values[x as int]);
        } else {
            assert(!stmt.outputs.contains(x)) by {
                if stmt.outputs.contains(x) {
                    let i = stmt.outputs.index_of(x);
                    assert(w.ready(stmt.outputs[i]));
                }
            }
            lemma_exec_framed(ir, host, stmt, m, mem, x);
            assert(m.env.contains_key(x));
        }
    }
    c2
}

/// The blocks of a function were laid out as `v`, and then lowered to `f`.
spec fn lowers_to(ir: IrView, order: Seq<u64>, v: LowerView, f: LowerView) -> bool {
    &&& ir.wf()
    &&& single_assignment(ir)
    &&& order.no_duplicates()
    &&& forall|j: int| 0 <= j < order.len() ==> (#[trigger] order[j]) < ir.blocks.len()
    &&& v.wf(ir)
    &&& apart(v)
    &&& placed(v, order)
    &&& lowered_up_to(ir, v, order, 0, 0)
    &&& laid_out(ir, order, v)
    &&& v.blocks.len() == order.len()
    &&& v.lower_blocks(ir, order, order.len() as int) == Ok::<LowerView, LoweringError>(f)
    &&& f.types.len() + 8 <= u64::MAX
    &&& f.lists.len() + 8 <= u64::MAX
}

/// The view once the first `n` statements of the block at `i` are lowered.
spec fn stage(ir: IrView, order: Seq<u64>, v: LowerView, i: int, n: int) -> LowerView {
    opened(v.lower_blocks(ir, order, i)->Ok_0, order[i]).lower_stmts(
        ir,
        ir.blocks[order[i] as int].stmts,
        n,
    )->Ok_0
}

/// Lowering succeeds up to every place.
proof fn lemma_stage_ok(ir: IrView, order: Seq<u64>, v: LowerView, f: LowerView, i: int, n: int)
    requires
        lowers_to(ir, order, v, f),
        0 <= i < order.len(),
        0 <= n <= ir.blocks[order[i] as int].stmts.len(),
    ensures
        v.lower_blocks(ir, order, i) is Ok,
        v.lower_blocks(ir, order, i + 1) is Ok,
        opened(v.lower_blocks(ir, order, i)->Ok_0, order[i]).lower_stmts(
            ir,
            ir.blocks[order[i] as int].stmts,
            n,
        ) is Ok,
{
    let len = order.len() as int;
    if v.lower_blocks(ir, order, i) is Err {
        lemma_blocks_fail(v, ir, order, i, len);
    }
    if v.lower_blocks(ir, order, i + 1) is Err {
        lemma_blocks_fail(v, ir, order, i + 1, len);
    }
    let u = v.lower_blocks(ir, order, i)->Ok_0;
    let stmts = ir.blocks[order[i] as int].stmts;
    let start = opened(u, order[i]);
    if start.lower_stmts(ir, stmts, n) is Err {
        lemma_stmts_fail(start, ir, stmts, n, stmts.len() as int);
    }
    assert(u.lower_block(ir, order[i]) == v.lower_blocks(ir, order, i + 1));
}

/// What is known at the end of the block at `i`.
proof fn lemma_block_end(ir: IrView, order: Seq<u64>, v: LowerView, f: LowerView, i: int)
    requires
        lowers_to(ir, order, v, f),
        0 <= i < order.len(),
    ensures
        ({
            let b = order[i];
            let data = ir.blocks[b as int];
            let k = v.block_of[b as int]->0;
            let u = stage(ir, order, v, i, data.stmts.len() as int);
            let w = v.lower_blocks(ir, order, i + 1)->Ok_0;
            &&& k < f.blocks.len()
            &&& u.lower_terminator(ir, data.terminator) == Ok::<LowerView, LoweringError>(w)
            &&& u.wf(ir)
            &&& apart(u)
            &&& extends(v, u)
            &&& grown(u, w)
            &&& w.wf(ir)
            &&& extends(w, f)
            &&& extends(u, f)
            &&& u.current == k
            &&& f.blocks[k as int] == w.blocks[k as int]
            &&& f.blocks[k as int].params == v.blocks[k as int].params
            &&& stage(ir, order, v, i, 0).blocks[k as int].insts.len() == 0
        }),
{
    let b = order[i];
    let data = ir.blocks[b as int];
    let n = data.stmts.len() as int;
    let len = order.len() as int;
    lemma_stage_ok(ir, order, v, f, i, n);
    let t = v.lower_blocks(ir, order, i)->Ok_0;
    let w = v.lower_blocks(ir, order, i + 1)->Ok_0;
    let start = opened(t, b);
    let u = start.lower_stmts(ir, data.stmts, n)->Ok_0;
    let k = v.block_of[b as int]->0;
    assert(t.lower_block(ir, b) == Ok::<LowerView, LoweringError>(w));
    lemma_blocks_grow(ir, order, v, i, t);
    lemma_blocks_grow(ir, order, v, i + 1, w);
    assert(t.block_of[b as int] is Some);
    lemma_rest_grows(ir, order, v, i + 1, len, w, f);
    lemma_block_grows(ir, t, b, w);
    lemma_lower_blocks(ir, order, v, i, t);
    lemma_lower_block(ir, order, i, t, w);
    lemma_block_stays(ir, order, v, i + 1, len, w, f);
    assert(f.blocks[v.block_of[order[i] as int]->0 as int] == w.blocks[v.block_of[
        order[i] as int
    ]->0 as int]);
    lemma_opened(ir, t, b);
    lemma_terminator_grows_after(ir, t, b, w);
    assert(lowered_up_to(ir, start, order, i, 0)) by {
        assert forall|x: u64| #[trigger] start.ready(x) implies t.ready(x) by {}
    }
    lemma_lower_stmts(ir, order, i, start, n, u);
    lemma_grown_valid(ir, u, w);
    lemma_extends_on(u, w, f);
    lemma_extends_on(v, t, start);
    lemma_extends_on(v, start, u);
    assert(t.blocks[v.block_of[order[i] as int]->0 as int] == v.blocks[v.block_of[
        order[i] as int
    ]->0 as int]);
    assert(v.blocks[i].insts.len() == 0);
    assert(v.block_of[order[i] as int] == Some(i as u64));
}

/// Lowering more blocks makes the tables no shorter.
proof fn lemma_rest_grows(
    ir: IrView,
    order: Seq<u64>,
    v: LowerView,
    i: int,
    n: int,
    u: LowerView,
    w: LowerView,
)
    requires
        placed(v, order),
        0 <= i <= n <= order.len(),
        v.lower_blocks(ir, order, i) == Ok::<LowerView, LoweringError>(u),
        v.lower_blocks(ir, order, n) == Ok::<LowerView, LoweringError>(w),
    ensures
        u.types.len() <= w.types.len(),
        u.lists.len() <= w.lists.len(),
    decreases n - i,
{
    if i < n {
        let t = v.lower_blocks(ir, order, n - 1)->Ok_0;
        lemma_rest_grows(ir, order, v, i, n - 1, u, t);
        lemma_blocks_grow(ir, order, v, n - 1, t);
        assert(t.block_of[order[n - 1] as int] is Some);
        lemma_block_grows(ir, t, order[n - 1], w);
    }
}

/// What is known once the first `n` statements of the block at `i` are
/// lowered.
#[verifier::spinoff_prover]
#[verifier::rlimit(60)]
proof fn lemma_stage(ir: IrView, order: Seq<u64>, v: LowerView, f: LowerView, i: int, n: int)
    requires
        lowers_to(ir, order, v, f),
        0 <= i < order.len(),
        0 <= n <= ir.blocks[order[i] as int].stmts.len(),
    ensures
        ({
            let k = v.block_of[order[i] as int]->0;
            let u = stage(ir, order, v, i, n);
            &&& u.wf(ir)
            &&& apart(u)
            &&& extends(v, u)
            &&& extends(u, f)
            &&& u.current == k
            &&& u.blocks.len() == f.blocks.len()
            &&& u.blocks[k as int].insts.is_prefix_of(f.blocks[k as int].insts)
            &&& lowered_up_to(ir, u, order, i, n)
        }),
    decreases ir.blocks[order[i] as int].stmts.len() - n,
{
    let b = order[i];
    let data = ir.blocks[b as int];
    let end = data.stmts.len() as int;
    let k = v.block_of[b as int]->0;
    lemma_block_end(ir, order, v, f, i);
    lemma_stage_ok(ir, order, v, f, i, n);
    let t = v.lower_blocks(ir, order, i)->Ok_0;
    let start = opened(t, b);
    let u = stage(ir, order, v, i, n);
    lemma_blocks_grow(ir, order, v, i, t);
    assert(t.block_of[b as int] is Some);
    lemma_rest_grows(ir, order, v, i, order.len() as int, t, f);
    lemma_lower_blocks(ir, order, v, i, t);
    lemma_opened(ir, t, b);
    assert(lowered_up_to(ir, start, order, i, 0)) by {
        assert forall|x: u64| #[trigger] start.ready(x) implies t.ready(x) by {}
    }
    if n == end {
        lemma_lower_stmts(ir, order, i, start, n, u);
        assert(u.blocks[k as int].insts.is_prefix_of(f.blocks[k as int].insts)) by {
            reveal(grown);
        }
    } else {
        lemma_stage(ir, order, v, f, i, n + 1);
        lemma_stage_ok(ir, order, v, f, i, n + 1);
        let w = stage(ir, order, v, i, n + 1);
        let stmt = ir.stmts[data.stmts[n].index as int];
        assert(u.lower_stmt(ir, stmt) == Ok::<LowerView, LoweringError>(w));
        lemma_stmts_grow(ir, start, data.stmts, n, u);
        let (u1, outs) = u.lower(ir, stmt.rvalue);
        lemma_lower_grows(ir, u, stmt.rvalue);
        lemma_bind_rest(u1, stmt.outputs, outs, stmt.outputs.len() as int);
        assert(u.types.len() <= w.types.len() && u.lists.len() <= w.lists.len()) by {
            reveal(grown);
        }
        lemma_lower_stmts(ir, order, i, start, n, u);
        lemma_next_stmt(ir, order, i, n, u, w);
        lemma_extends_on(u, w, f);
        lemma_extends_on(v, t, start);
        lemma_extends_on(v, start, u);
    }
}

/// A branch passes values of the types of the parameters, as it must; results
/// of testing tags are not passed.
pub open spec fn edge_fits(ir: IrView, jump: JumpView) -> bool {
    let params = ir.block(jump.target).parameters;
    &&& params.len() == jump.parameters.len()
    &&& forall|i: int|
        #![trigger jump.parameters[i]]
        0 <= i < params.len() ==> ir.types[params[i] as int]
            == ir.types[jump.parameters[i] as int] && !tag_test(ir, jump.parameters[i])
}

pub open spec fn edges_fit(ir: IrView, terminator: TerminatorView) -> bool {
    match terminator {
        TerminatorView::Br(jump) => edge_fits(ir, jump),
        TerminatorView::BrZ(_, zero, non_zero) => edge_fits(ir, zero) && edge_fits(ir, non_zero),
        _ => true,
    }
}

/// The branches of the code fit the blocks that they lead to, and it combines
/// no results of testing tags.
pub open spec fn proper(ir: IrView) -> bool {
    &&& ir.wf()
    &&& forall|b: int| 0 <= b < ir.blocks.len() ==> edges_fit(ir, (#[trigger] ir.blocks[b]).terminator)
    &&& forall|s: int| 0 <= s < ir.stmts.len() ==> tags_apart(ir, (#[trigger] ir.stmts[s]).rvalue)
}

/// The pointer to the guest CPU's state is a parameter, and nothing else.
proof fn lemma_state_pointer(ir: IrView)
    requires
        proper(ir),
    ensures
        passes(ir, 0, 3, Arg::ExecState.spec_value().index),
        ir.blocks.len() > 0,
{
    lemma_wf(ir);
    reveal(IrView::bound_once);
    assert(ir.blocks[0].parameters[3] == Arg::at(3).spec_value().index);
}

/// Statement `n` of a block.
#[verifier::spinoff_prover]
#[verifier::rlimit(100)]
proof fn lemma_block_step(
    ir: IrView,
    order: Seq<u64>,
    v: LowerView,
    f: LowerView,
    image: Image,
    host: Host,
    i: int,
    n: int,
    m: Machine,
    mem: HostMem,
    c: ClifState,
) -> (c2: ClifState)
    requires
        proper(ir),
        lowers_to(ir, order, v, f),
        v.ready(Arg::ExecState.spec_value().index),
        0 <= i < order.len(),
        0 <= n < ir.blocks[order[i] as int].stmts.len(),
        tracks(ir, f, image, m, mem, c),
        image.linked(),
        behaves(host),
        ir.exec(host, ir.stmts[ir.blocks[order[i] as int].stmts[n].index as int], m, mem) is Some,
    ensures
        ({
            let stmt = ir.stmts[ir.blocks[order[i] as int].stmts[n].index as int];
            let (m2, mem2) = ir.exec(host, stmt, m, mem)->0;
            let k = v.block_of[order[i] as int]->0 as int;
            let done = stage(ir, order, v, i, n).blocks[k].insts.len();
            let end = stage(ir, order, v, i, n + 1).blocks[k].insts.len();
            &&& done <= end
            &&& tracks(ir, f, image, m2, mem2, c2)
            &&& clif_after(
                image,
                host,
                f,
                ClifFlow::At { block: k, done: done as int, c },
                (end - done) as nat,
            ) == (ClifFlow::At { block: k, done: end as int, c: c2 })
        }),
{
    let b = order[i];
    let k = v.block_of[b as int]->0 as int;
    let data = ir.blocks[b as int];
    let stmt = ir.stmts[data.stmts[n].index as int];
    let u = stage(ir, order, v, i, n);
    let w = stage(ir, order, v, i, n + 1);
    lemma_stage_ok(ir, order, v, f, i, n);
    lemma_stage_ok(ir, order, v, f, i, n + 1);
    lemma_stage(ir, order, v, f, i, n);
    lemma_stage(ir, order, v, f, i, n + 1);
    assert(u.lower_stmt(ir, stmt) == Ok::<LowerView, LoweringError>(w));
    lemma_next_stmt(ir, order, i, n, u, w);
    lemma_state_pointer(ir);
    let es = Arg::ExecState.spec_value().index;
    assert(u.ready(es));
    assert(!stmt.outputs.contains(es)) by {
        if stmt.outputs.contains(es) {
            assert(binds(ir, b as int, n, es));
        }
    }
    let s = data.stmts[n].index as int;
    assert(ir.stmts[s] == stmt);
    let c2 = lemma_statement(ir, u, w, f, image, host, stmt, m, mem, c);
    let insts = new_insts(u, w);
    let done = u.blocks[k].insts.len();
    assert(insts.len() == w.blocks[k].insts.len() - done);
    assert forall|j: int| 0 <= j < insts.len() implies #[trigger] f.blocks[k].insts[done + j]
        == insts[j] by {
        assert(insts[j] == w.blocks[k].insts[done + j]);
    }
    lemma_insts_run(image, host, f, k, done as int, insts, c);
    c2
}

/// The statements of a block.
#[verifier::spinoff_prover]
#[verifier::rlimit(60)]
proof fn lemma_block_run(
    ir: IrView,
    order: Seq<u64>,
    v: LowerView,
    f: LowerView,
    image: Image,
    host: Host,
    i: int,
    n: int,
    m: Machine,
    mem: HostMem,
    c: ClifState,
    m2: Machine,
    mem2: HostMem,
) -> (c2: ClifState)
    requires
        proper(ir),
        lowers_to(ir, order, v, f),
        v.ready(Arg::ExecState.spec_value().index),
        0 <= i < order.len(),
        0 <= n <= ir.blocks[order[i] as int].stmts.len(),
        tracks(ir, f, image, m, mem, c),
        image.linked(),
        behaves(host),
        ir.after(host, Flow::At { block: order[i] as int, done: 0, m, mem }, n as nat)
            == (Flow::At { block: order[i] as int, done: n, m: m2, mem: mem2 }),
    ensures
        tracks(ir, f, image, m2, mem2, c2),
        ({
            let k = v.block_of[order[i] as int]->0 as int;
            let done = stage(ir, order, v, i, n).blocks[k].insts.len();
            clif_after(image, host, f, ClifFlow::At { block: k, done: 0, c }, done) == (
            ClifFlow::At { block: k, done: done as int, c: c2 })
        }),
    decreases n,
{
    let b = order[i];
    let k = v.block_of[b as int]->0 as int;
    let start = Flow::At { block: b as int, done: 0, m, mem };
    let from = ClifFlow::At { block: k, done: 0, c };
    lemma_block_end(ir, order, v, f, i);
    if n == 0 {
        assert(clif_after(image, host, f, from, 0) == from);
        c
    } else {
        let before = ir.after(host, start, (n - 1) as nat);
        let (m1, mem1) = match before {
            Flow::At { block, done, m: mb, mem: memb } => (mb, memb),
            _ => (m, mem),
        };
        lemma_one_back(ir, host, b as int, n, before, m2, mem2);
        let c1 = lemma_block_run(
            ir,
            order,
            v,
            f,
            image,
            host,
            i,
            n - 1,
            m,
            mem,
            c,
            m1,
            mem1,
        );
        let c2 = lemma_block_step(ir, order, v, f, image, host, i, n - 1, m1, mem1, c1);
        let done = stage(ir, order, v, i, n - 1).blocks[k].insts.len();
        let end = stage(ir, order, v, i, n).blocks[k].insts.len();
        lemma_clif_after_on(image, host, f, from, done, (end - done) as nat);
        c2
    }
}

/// A statement leads from where it stands to the next.
proof fn lemma_one_back(
    ir: IrView,
    host: Host,
    b: int,
    n: int,
    before: Flow,
    m2: Machine,
    mem2: HostMem,
)
    requires
        0 < n <= ir.blocks[b].stmts.len(),
        ir.advance(host, before) == (Flow::At { block: b, done: n, m: m2, mem: mem2 }),
    ensures
        before is At,
        before->block == b,
        before->done == n - 1,
        ir.exec(
            host,
            ir.stmts[ir.blocks[b].stmts[n - 1].index as int],
            before->At_m,
            before->At_mem,
        ) == Some((m2, mem2)),
{
}

proof fn lemma_bound(env: Map<u64, Val>, params: Seq<u64>, args: Seq<u64>, n: nat)
    requires
        n <= params.len(),
        params.no_duplicates(),
    ensures
        forall|i: int|
            0 <= i < n ==> bound(env, params, args, n).contains_key(#[trigger] params[i]) && bound(
                env,
                params,
                args,
                n,
            )[params[i]] == env[args[i]],
        forall|x: u64|
            (forall|i: int| 0 <= i < n ==> params[i] != x) ==> (#[trigger] bound(
                env,
                params,
                args,
                n,
            ).contains_key(x) == env.contains_key(x)) && bound(env, params, args, n)[x] == env[x],
    decreases n,
{
    if n > 0 {
        let before = bound(env, params, args, (n - 1) as nat);
        lemma_bound(env, params, args, (n - 1) as nat);
        assert forall|x: u64| (forall|i: int| 0 <= i < n ==> params[i] != x) implies (
        #[trigger] bound(env, params, args, n).contains_key(x) == env.contains_key(x)) && bound(
            env,
            params,
            args,
            n,
        )[x] == env[x] by {
            assert(params[n - 1] != x);
            assert(before.contains_key(x) == env.contains_key(x));
        }
    }
}

proof fn lemma_passed(vals: Map<u64, u64>, params: Seq<u64>, args: Seq<u64>, n: nat)
    requires
        n <= params.len(),
        params.no_duplicates(),
    ensures
        forall|i: int|
            0 <= i < n ==> passed(vals, params, args, n).contains_key(#[trigger] params[i])
                && passed(vals, params, args, n)[params[i]] == vals[args[i]],
        forall|x: u64|
            (forall|i: int| 0 <= i < n ==> params[i] != x) ==> (#[trigger] passed(
                vals,
                params,
                args,
                n,
            ).contains_key(x) == vals.contains_key(x)) && passed(vals, params, args, n)[x]
                == vals[x],
    decreases n,
{
    if n > 0 {
        let before = passed(vals, params, args, (n - 1) as nat);
        lemma_passed(vals, params, args, (n - 1) as nat);
        assert forall|x: u64| (forall|i: int| 0 <= i < n ==> params[i] != x) implies (
        #[trigger] passed(vals, params, args, n).contains_key(x) == vals.contains_key(x)) && passed(
            vals,
            params,
            args,
            n,
        )[x] == vals[x] by {
            assert(params[n - 1] != x);
            assert(before.contains_key(x) == vals.contains_key(x));
        }
    }
}

/// The parameters of a lowered block are the lowered parameters of the block.
proof fn lemma_params(ir: IrView, order: Seq<u64>, v: LowerView, f: LowerView, j: int)
    requires
        proper(ir),
        lowers_to(ir, order, v, f),
        every_param(ir, order, v),
        0 <= j < order.len(),
    ensures
        ({
            let params = ir.blocks[order[j] as int].parameters;
            let k = v.block_of[order[j] as int]->0 as int;
            &&& f.block_of == v.block_of
            &&& extends(v, f)
            &&& f.blocks[k].params.len() == params.len()
            &&& params.no_duplicates()
            &&& f.blocks[k].params.no_duplicates()
            &&& forall|i: int|
                0 <= i < params.len() ==> f.ready(#[trigger] params[i]) && f.values[params[i] as int]
                    == Some(f.blocks[k].params[i])
        }),
{
    let b = order[j];
    let params = ir.blocks[b as int].parameters;
    let k = v.block_of[b as int]->0 as int;
    lemma_block_end(ir, order, v, f, j);
    let u = stage(ir, order, v, j, ir.blocks[b as int].stmts.len() as int);
    lemma_extends_on(v, u, f);
    lemma_lower_blocks(ir, order, v, order.len() as int, f);
    assert(v.blocks[j].insts.len() == 0);
    assert(k == j);
    let lowered = f.blocks[k].params;
    assert(lowered == v.blocks[j].params);
    assert(forall|i: int| 0 <= i < params.len() ==> passes(ir, b as int, i, #[trigger] params[i]));
    lemma_wf_block(ir, Block { index: b });
    assert forall|i: int| 0 <= i < params.len() implies f.ready(#[trigger] params[i])
        && f.values[params[i] as int] == Some(lowered[i]) by {
        assert(v.values[params[i] as int] == Some(v.blocks[j].params[i]));
        assert(v.ready(params[i]));
    }
    assert forall|i: int, l: int| 0 <= i < lowered.len() && 0 <= l < lowered.len() && i
        != l implies lowered[i] != lowered[l] by {
        assert(passes(ir, b as int, i, params[i]) && passes(ir, b as int, l, params[l]));
        assert(f.ready(params[i]) && f.ready(params[l]));
    }
}

/// Every parameter has been added.
spec fn every_param(ir: IrView, order: Seq<u64>, v: LowerView) -> bool {
    forall|j: int|
        0 <= j < v.blocks.len() ==> (#[trigger] v.blocks[j]).params.len()
            == ir.blocks[order[j] as int].parameters.len()
}

/// A branch leads to the same block, with the same values passed.
#[verifier::spinoff_prover]
#[verifier::rlimit(60)]
proof fn lemma_enter(
    ir: IrView,
    order: Seq<u64>,
    v: LowerView,
    f: LowerView,
    u: LowerView,
    image: Image,
    jump: JumpView,
    args: ClifList,
    m: Machine,
    mem: HostMem,
    c: ClifState,
) -> (c2: ClifState)
    requires
        proper(ir),
        lowers_to(ir, order, v, f),
        every_param(ir, order, v),
        tracks(ir, f, image, m, mem, c),
        order.contains(jump.target.index),
        edge_fits(ir, jump),
        extends(u, f),
        u.all_ready(jump.parameters),
        f.lists[args.index as int] == u.vals(jump.parameters),
        ir.follow(jump, m, mem) is At,
    ensures
        enter(f, v.target(jump.target), args, c) == (ClifFlow::At {
            block: v.target(jump.target) as int,
            done: 0,
            c: c2,
        }),
        ({
            let next = ir.follow(jump, m, mem);
            &&& next->block == jump.target.index
            &&& next->done == 0
            &&& tracks(ir, f, image, next->At_m, next->At_mem, c2)
        }),
{
    let j = order.index_of(jump.target.index);
    let params = ir.block(jump.target).parameters;
    let k = v.target(jump.target) as int;
    lemma_params(ir, order, v, f, j);
    let into = f.blocks[k].params;
    let items = f.lists[args.index as int];
    let vals = passed(c.vals, into, items, into.len());
    let c2 = ClifState { vals, ..c };
    let env = bound(m.env, params, jump.parameters, params.len());
    let m2 = Machine { env, ..m };
    lemma_bound(m.env, params, jump.parameters, params.len());
    lemma_passed(c.vals, into, items, into.len());
    assert forall|x: u64| #[trigger] f.ready(x) && m2.env.contains_key(x) implies vals.contains_key(
        f.values[x as int]->0,
    ) && stands_for(vals[f.values[x as int]->0], m2.env[x]) && (match ir.types[x as int] {
        TypeFull::Int(width) => m2.env[x] matches Val::Int(number) && number <= width.mask(),
        TypeFull::Bool => m2.env[x] is Bool && crisp(ir, x, vals[f.values[x as int]->0]),
        TypeFull::HostPtr(_) => m2.env[x] is Int,
    }) by {
        if exists|i: int| 0 <= i < params.len() && params[i] == x {
            let i = choose|i: int| 0 <= i < params.len() && params[i] == x;
            let a = jump.parameters[i];
            assert(f.values[params[i] as int] == Some(into[i]));
            assert(u.ready(a));
            assert(f.ready(a) && f.values[a as int] == u.values[a as int]);
            assert(items[i] == f.values[a as int]->0);
            assert(m.env.contains_key(a));
            assert(env[params[i]] == m.env[a]);
            assert(vals[into[i]] == c.vals[items[i]]);
        } else {
            let y = f.values[x as int]->0;
            assert forall|i: int| 0 <= i < into.len() implies into[i] != y by {
                assert(f.ready(params[i]));
                assert(f.values[params[i] as int] == Some(into[i]));
                assert(f.ready(x));
            }
            assert(env.contains_key(x) == m.env.contains_key(x));
            assert(vals.contains_key(y) == c.vals.contains_key(y));
        }
    }
    let es = Arg::ExecState.spec_value().index;
    assert(f.ready(es));
    c2
}

/// The code has been lowered, and the lowered code is where the IR is.
spec fn under_way(
    ir: IrView,
    order: Seq<u64>,
    v: LowerView,
    f: LowerView,
    image: Image,
    host: Host,
    i: int,
    m: Machine,
    mem: HostMem,
    c: ClifState,
) -> bool {
    &&& proper(ir)
    &&& lowers_to(ir, order, v, f)
    &&& every_param(ir, order, v)
    &&& order == ir.compile_order()
    &&& v.ready(Arg::ExecState.spec_value().index)
    &&& image.linked()
    &&& behaves(host)
    &&& 0 <= i < order.len()
    &&& tracks(ir, f, image, m, mem, c)
}

/// The lowered code comes where the IR comes.
spec fn follows(
    ir: IrView,
    order: Seq<u64>,
    v: LowerView,
    f: LowerView,
    image: Image,
    next: Flow,
    flow: ClifFlow,
) -> bool {
    match next {
        Flow::At { block, done, m, mem } => flow matches ClifFlow::At { block: k, done: d, c }
            && done == 0 && 0 <= block < v.block_of.len() && order.contains(block as u64) && k
            == v.block_of[block]->0 && d == 0 && tracks(ir, f, image, m, mem, c),
        Flow::Returned { code, m, mem } => flow matches ClifFlow::Returned { code: number, c }
            && number == code && c.state == m.state && c.mem == mem,
        Flow::Stuck => true,
    }
}

/// The end of a block of the IR.
spec fn ended(ir: IrView, host: Host, order: Seq<u64>, i: int, m: Machine, mem: HostMem) -> Flow {
    let b = order[i] as int;
    ir.advance(host, Flow::At { block: b, done: ir.blocks[b].stmts.len() as int, m, mem })
}

/// Where lowered code is at the end of a block, before the instructions of
/// its branch.
spec fn at_end(ir: IrView, order: Seq<u64>, v: LowerView, i: int, c: ClifState) -> ClifFlow {
    let b = order[i] as int;
    let k = v.block_of[b]->0 as int;
    let u = stage(ir, order, v, i, ir.blocks[b].stmts.len() as int);
    ClifFlow::At { block: k, done: u.blocks[k].insts.len() as int, c }
}

/// The end of a block that returns.
#[verifier::spinoff_prover]
#[verifier::rlimit(60)]
proof fn lemma_returns(
    ir: IrView,
    order: Seq<u64>,
    v: LowerView,
    f: LowerView,
    image: Image,
    host: Host,
    i: int,
    m: Machine,
    mem: HostMem,
    c: ClifState,
) -> (steps: nat)
    requires
        under_way(ir, order, v, f, image, host, i, m, mem, c),
        ir.blocks[order[i] as int].terminator is Return || ir.blocks[order[i] as int].terminator is ReturnCode,
    ensures
        follows(
            ir,
            order,
            v,
            f,
            image,
            ended(ir, host, order, i, m, mem),
            clif_after(image, host, f, at_end(ir, order, v, i, c), steps),
        ),
{
    let b = order[i];
    let data = ir.blocks[b as int];
    let k = v.block_of[b as int]->0 as int;
    lemma_block_end(ir, order, v, f, i);
    let u = stage(ir, order, v, i, data.stmts.len() as int);
    let w = v.lower_blocks(ir, order, i + 1)->Ok_0;
    let done = u.blocks[k].insts.len() as int;
    let from = at_end(ir, order, v, i, c);
    reveal_with_fuel(clif_after, 3);
    if let TerminatorView::ReturnCode(reason) = data.terminator {
        assert(f.blocks[k].insts[done] == ClifInst {
            op: ClifOp::Return { value: u.val(reason) },
            result: u.types.len() as u64,
        });
        assert(u.ready(reason.index));
        assert(f.values[reason.index as int] == u.values[reason.index as int]);
        if m.has_int(reason) {
            lemma_operand(ir, f, image, m, mem, c, reason);
        }
        1
    } else {
        let t = u.types.len() as u64;
        assert(f.blocks[k].insts[done] == ClifInst {
            op: ClifOp::Iconst { ty: ClifTy::I32, bits: 0 },
            result: t,
        });
        assert(f.blocks[k].insts[done + 1].op == ClifOp::Return { value: t });
        let c1 = c.set(t, 0);
        assert(
            clif_advance(image, host, f, from) == (ClifFlow::At { block: k, done: done + 1, c: c1 })
        );
        2
    }
}

/// The end of a block with one successor.
#[verifier::spinoff_prover]
#[verifier::rlimit(60)]
proof fn lemma_branches(
    ir: IrView,
    order: Seq<u64>,
    v: LowerView,
    f: LowerView,
    image: Image,
    host: Host,
    i: int,
    m: Machine,
    mem: HostMem,
    c: ClifState,
) -> (steps: nat)
    requires
        under_way(ir, order, v, f, image, host, i, m, mem, c),
        ir.blocks[order[i] as int].terminator is Br,
    ensures
        follows(
            ir,
            order,
            v,
            f,
            image,
            ended(ir, host, order, i, m, mem),
            clif_after(image, host, f, at_end(ir, order, v, i, c), steps),
        ),
{
    let b = order[i];
    let data = ir.blocks[b as int];
    let k = v.block_of[b as int]->0 as int;
    lemma_block_end(ir, order, v, f, i);
    let u = stage(ir, order, v, i, data.stmts.len() as int);
    let w = v.lower_blocks(ir, order, i + 1)->Ok_0;
    let done = u.blocks[k].insts.len() as int;
    if let TerminatorView::Br(jump) = data.terminator {
        let args = ClifList { index: u.lists.len() as u64 };
        assert(w.lists == u.lists.push(u.vals(jump.parameters)));
        assert(f.lists[u.lists.len() as int] == w.lists[u.lists.len() as int]);
        assert(f.blocks[k].insts[done].op == ClifOp::Jump { target: u.target(jump.target), args });
        assert(data.terminator.targets().contains(jump.target.index)) by {
            assert(data.terminator.targets()[0] == jump.target.index);
        }
        lemma_order_closed(ir, b, jump.target.index);
        lemma_wf_block(ir, Block { index: b });
        assert(edges_fit(ir, ir.blocks[b as int].terminator));
        if ir.follow(jump, m, mem) is At {
            let c2 = lemma_enter(ir, order, v, f, u, image, jump, args, m, mem, c);
        }
        reveal_with_fuel(clif_after, 2);
    }
    1
}

/// The values of the IR do not see a value that stands for none of them.
proof fn lemma_unseen(
    ir: IrView,
    u: LowerView,
    w: LowerView,
    f: LowerView,
    image: Image,
    m: Machine,
    mem: HostMem,
    c: ClifState,
    number: u64,
)
    requires
        tracks(ir, f, image, m, mem, c),
        u.wf(ir),
        w.values == u.values,
        extends(u, f),
        extends(w, f),
        u.types.len() < w.types.len() <= u64::MAX,
    ensures
        tracks(ir, f, image, m, mem, c.set(u.types.len() as u64, number)),
{
    let t = u.types.len() as u64;
    let c1 = c.set(t, number);
    assert forall|x: u64| #[trigger] f.ready(x) && m.env.contains_key(x) implies c1.vals.contains_key(
        f.values[x as int]->0,
    ) && stands_for(c1.vals[f.values[x as int]->0], m.env[x]) && (match ir.types[x as int] {
        TypeFull::Int(width) => m.env[x] matches Val::Int(number) && number <= width.mask(),
        TypeFull::Bool => m.env[x] is Bool && crisp(ir, x, c1.vals[f.values[x as int]->0]),
        TypeFull::HostPtr(_) => m.env[x] is Int,
    }) by {
        if u.ready(x) {
            assert(u.values[x as int] is Some);
            assert(f.values[x as int] == u.values[x as int]);
        } else {
            assert(!w.ready(x));
        }
        assert(f.values[x as int]->0 != t);
    }
}

/// The end of a block with two successors.
#[verifier::spinoff_prover]
#[verifier::rlimit(60)]
proof fn lemma_decides(
    ir: IrView,
    order: Seq<u64>,
    v: LowerView,
    f: LowerView,
    image: Image,
    host: Host,
    i: int,
    m: Machine,
    mem: HostMem,
    c: ClifState,
) -> (steps: nat)
    requires
        under_way(ir, order, v, f, image, host, i, m, mem, c),
        ir.blocks[order[i] as int].terminator is BrZ,
    ensures
        follows(
            ir,
            order,
            v,
            f,
            image,
            ended(ir, host, order, i, m, mem),
            clif_after(image, host, f, at_end(ir, order, v, i, c), steps),
        ),
{
    let b = order[i];
    let data = ir.blocks[b as int];
    let k = v.block_of[b as int]->0 as int;
    lemma_block_end(ir, order, v, f, i);
    let u = stage(ir, order, v, i, data.stmts.len() as int);
    let w = v.lower_blocks(ir, order, i + 1)->Ok_0;
    let done = u.blocks[k].insts.len() as int;
    let from = at_end(ir, order, v, i, c);
    if let TerminatorView::BrZ(cond, zero, non_zero) = data.terminator {
        let t = u.types.len() as u64;
        let l = u.lists.len() as int;
        let non_zero_args = ClifList { index: l as u64 };
        let zero_args = ClifList { index: (l + 1) as u64 };
        let first = u.vals(non_zero.parameters);
        let second = u.vals(zero.parameters);
        assert(w.lists == u.lists.push(first).push(second));
        assert(f.lists[l] == w.lists[l] && f.lists[l + 1] == w.lists[l + 1]);
        assert(w.types == u.types + seq![ClifTy::I8]);
        assert(w.values == u.values);
        let test = ClifInst {
            op: ClifOp::CompareImm { predicate: IntCmp::NotEqual, lhs: u.val(cond), imm: 0 },
            result: t,
        };
        assert(f.blocks[k].insts[done] == test);
        assert(f.blocks[k].insts[done + 1].op == ClifOp::Brif {
            cond: t,
            non_zero: u.target(non_zero.target),
            non_zero_args,
            zero: u.target(zero.target),
            zero_args,
        });
        let targets = data.terminator.targets();
        assert(targets.contains(zero.target.index) && targets.contains(non_zero.target.index)) by {
            assert(targets[0] == zero.target.index);
            if zero.target != non_zero.target {
                assert(targets[1] == non_zero.target.index);
            }
        }
        lemma_order_closed(ir, b, zero.target.index);
        lemma_order_closed(ir, b, non_zero.target.index);
        lemma_wf_block(ir, Block { index: b });
        assert(edges_fit(ir, ir.blocks[b as int].terminator));
        reveal_with_fuel(clif_after, 3);
        if decided(m, cond) {
            assert(u.ready(cond.index));
            assert(f.values[cond.index as int] == u.values[cond.index as int]);
            lemma_operand(ir, f, image, m, mem, c, cond);
            let x = c.vals[u.val(cond)];
            assert(is_set(m, cond) == (x != 0));
            let c1 = c.set(t, byte_of(x != 0));
            assert(clif_do(image, host, f.types, f.lists, test, c) == Some(c1));
            lemma_unseen(ir, u, w, f, image, m, mem, c, byte_of(x != 0));
            assert(clif_advance(image, host, f, from) == (ClifFlow::At {
                block: k,
                done: done + 1,
                c: c1,
            }));
            if is_set(m, cond) {
                if ir.follow(non_zero, m, mem) is At {
                    let c2 = lemma_enter(
                        ir,
                        order,
                        v,
                        f,
                        u,
                        image,
                        non_zero,
                        non_zero_args,
                        m,
                        mem,
                        c1,
                    );
                }
            } else {
                if ir.follow(zero, m, mem) is At {
                    let c2 = lemma_enter(ir, order, v, f, u, image, zero, zero_args, m, mem, c1);
                }
            }
        }
    }
    2
}

/// The end of a block.
proof fn lemma_end(
    ir: IrView,
    order: Seq<u64>,
    v: LowerView,
    f: LowerView,
    image: Image,
    host: Host,
    i: int,
    m: Machine,
    mem: HostMem,
    c: ClifState,
) -> (steps: nat)
    requires
        under_way(ir, order, v, f, image, host, i, m, mem, c),
    ensures
        follows(
            ir,
            order,
            v,
            f,
            image,
            ended(ir, host, order, i, m, mem),
            clif_after(image, host, f, at_end(ir, order, v, i, c), steps),
        ),
{
    match ir.blocks[order[i] as int].terminator {
        TerminatorView::Br(_) => lemma_branches(ir, order, v, f, image, host, i, m, mem, c),
        TerminatorView::BrZ(_, _, _) => lemma_decides(ir, order, v, f, image, host, i, m, mem, c),
        _ => lemma_returns(ir, order, v, f, image, host, i, m, mem, c),
    }
}

proof fn lemma_after_on(ir: IrView, host: Host, flow: Flow, a: nat, b: nat)
    ensures
        ir.after(host, flow, a + b) == ir.after(host, ir.after(host, flow, a), b),
    decreases b,
{
    if b > 0 {
        lemma_after_on(ir, host, flow, a, (b - 1) as nat);
    }
}

/// A run that is over stays where it is.
proof fn lemma_over(ir: IrView, host: Host, flow: Flow, n: nat)
    requires
        !(flow is At),
    ensures
        ir.after(host, flow, n) == flow,
    decreases n,
{
    if n > 0 {
        lemma_over(ir, host, flow, (n - 1) as nat);
    }
}

/// A run that returns has done the statements of the block it is in.
proof fn lemma_walks(ir: IrView, host: Host, b: int, m: Machine, mem: HostMem, n: nat, done: nat)
    requires
        ir.after(host, Flow::At { block: b, done: 0, m, mem }, n) is Returned,
        done <= ir.blocks[b].stmts.len(),
    ensures
        done < n,
        ir.after(host, Flow::At { block: b, done: 0, m, mem }, done) matches Flow::At {
            block,
            done: d,
            m: m2,
            mem: mem2,
        } && block == b && d == done,
    decreases done,
{
    let start = Flow::At { block: b, done: 0, m, mem };
    if done > 0 {
        lemma_walks(ir, host, b, m, mem, n, (done - 1) as nat);
    }
    let here = ir.after(host, start, done);
    lemma_after_on(ir, host, start, done, (n - done) as nat);
    if !(here is At) {
        lemma_over(ir, host, here, (n - done) as nat);
    }
}

/// A run of the lowered code from the start of a block.
#[verifier::spinoff_prover]
#[verifier::rlimit(60)]
proof fn lemma_run(
    ir: IrView,
    order: Seq<u64>,
    v: LowerView,
    f: LowerView,
    image: Image,
    host: Host,
    i: int,
    m: Machine,
    mem: HostMem,
    c: ClifState,
    n: nat,
) -> (steps: nat)
    requires
        under_way(ir, order, v, f, image, host, i, m, mem, c),
        ir.after(host, Flow::At { block: order[i] as int, done: 0, m, mem }, n) is Returned,
    ensures
        follows(
            ir,
            order,
            v,
            f,
            image,
            ir.after(host, Flow::At { block: order[i] as int, done: 0, m, mem }, n),
            clif_after(
                image,
                host,
                f,
                ClifFlow::At { block: v.block_of[order[i] as int]->0 as int, done: 0, c },
                steps,
            ),
        ),
    decreases n,
{
    let b = order[i] as int;
    let k = v.block_of[b]->0 as int;
    let start = Flow::At { block: b, done: 0, m, mem };
    let from = ClifFlow::At { block: k, done: 0, c };
    let len = ir.blocks[b].stmts.len();
    lemma_walks(ir, host, b, m, mem, n, len);
    let here = ir.after(host, start, len);
    let m1 = here->At_m;
    let mem1 = here->At_mem;
    let c1 = lemma_block_run(ir, order, v, f, image, host, i, len as int, m, mem, c, m1, mem1);
    let first = stage(ir, order, v, i, len as int).blocks[k].insts.len();
    let second = lemma_end(ir, order, v, f, image, host, i, m1, mem1, c1);
    lemma_clif_after_on(image, host, f, from, first, second);
    let next = ir.after(host, start, len + 1);
    assert(next == ended(ir, host, order, i, m1, mem1));
    let reached = clif_after(image, host, f, from, first + second);
    let rest = (n - len - 1) as nat;
    lemma_after_on(ir, host, start, len + 1, rest);
    if next is At {
        let j = order.index_of(next->block as u64);
        let third = lemma_run(
            ir,
            order,
            v,
            f,
            image,
            host,
            j,
            next->At_m,
            next->At_mem,
            reached->At_c,
            rest,
        );
        lemma_clif_after_on(image, host, f, from, first + second, third);
        first + second + third
    } else {
        lemma_over(ir, host, next, rest);
        first + second
    }
}

/// Compiled code is entered with the arguments that the IR is entered with,
/// and finds the same memory.
pub open spec fn same_entry(
    ir: IrView,
    f: LowerView,
    image: Image,
    m: Machine,
    mem: HostMem,
    c: ClifState,
) -> bool {
    let params = ir.blocks[0].parameters;
    let lowered = f.blocks[0].params;
    &&& forall|x: u64| #[trigger] m.env.contains_key(x) ==> params.contains(x)
    &&& forall|i: int|
        0 <= i < params.len() ==> c.vals.contains_key(lowered[i]) && m.env[#[trigger] params[i]]
            == Val::Int(c.vals[lowered[i]])
    &&& image.exec_state == lowered[3]
    &&& c.state == m.state
    &&& c.mem == mem
    &&& tidy(mem)
}

/// The lowered run of a function ends as a run of the IR ends.
pub open spec fn returns_like(
    image: Image,
    host: Host,
    f: LowerView,
    c: ClifState,
    end: Flow,
    steps: nat,
) -> bool {
    clif_after(image, host, f, ClifFlow::At { block: 0, done: 0, c }, steps) matches
        ClifFlow::Returned { code, c: after } && end matches Flow::Returned {
        code: number,
        m,
        mem,
    } && code == number && after.state == m.state && after.mem == mem
}

/// Lowering keeps what a function does: if the function returns, so does the
/// lowered function, with the same code, the same state of the guest's CPU
/// and the same memory.
pub proof fn law_lowering_keeps_function(
    ir: IrView,
    f: LowerView,
    image: Image,
    host: Host,
    m: Machine,
    mem: HostMem,
    c: ClifState,
    n: nat,
)
    requires
        proper(ir),
        lowered(ir, ClifTy::I64) == Ok::<LowerView, LoweringError>(f),
        f.types.len() + 8 <= u64::MAX,
        f.lists.len() + 8 <= u64::MAX,
        image.linked(),
        behaves(host),
        same_entry(ir, f, image, m, mem, c),
        ir.after(host, Flow::At { block: 0, done: 0, m, mem }, n) is Returned,
    ensures
        exists|steps: nat| #[trigger]
            returns_like(
                image,
                host,
                f,
                c,
                ir.after(host, Flow::At { block: 0, done: 0, m, mem }, n),
                steps,
            ),
{
    let order = ir.compile_order();
    let len = order.len() as int;
    law_order_is_complete(ir);
    lemma_wf(ir);
    reveal(IrView::bound_once);
    assert forall|j: int| 0 <= j < order.len() implies (#[trigger] order[j]) < ir.blocks.len() by {
        assert(order.contains(order[j]));
    }
    lemma_order_short(ir, order);
    let v = LowerView::blank(ir, ClifTy::I64).add_blocks(ir, order, len);
    lemma_places(ir, ClifTy::I64, order, len);
    lemma_blocks_grow(ir, order, v, len, f);
    lemma_add_blocks(ir, ClifTy::I64, order, len);
    lemma_laid_out(ir, order, v);
    assert(lowers_to(ir, order, v, f));
    assert(every_param(ir, order, v));
    lemma_params(ir, order, v, f, 0);
    assert(v.blocks[0].insts.len() == 0);
    assert(v.block_of[order[0] as int] == Some(0u64));
    lemma_state_pointer(ir);
    let params = ir.blocks[0].parameters;
    let es = Arg::ExecState.spec_value().index;
    assert(params[3] == es);
    assert(v.ready(es)) by {
        assert(v.values[params[3] as int] == Some(v.blocks[0].params[3]));
    }
    lemma_lower_blocks(ir, order, v, len, f);
    assert(tracks(ir, f, image, m, mem, c)) by {
        assert(f.ready(params[3]) && f.values[params[3] as int] == Some(f.blocks[0].params[3]));
        assert forall|x: u64| #[trigger] f.ready(x) && m.env.contains_key(x) implies c.vals.contains_key(
            f.values[x as int]->0,
        ) && stands_for(c.vals[f.values[x as int]->0], m.env[x]) && (match ir.types[x as int] {
            TypeFull::Int(width) => m.env[x] matches Val::Int(number) && number <= width.mask(),
            TypeFull::Bool => m.env[x] is Bool && crisp(ir, x, c.vals[f.values[x as int]->0]),
            TypeFull::HostPtr(_) => m.env[x] is Int,
        }) by {
            let i = params.index_of(x);
            assert(params[i] == x);
            assert(f.values[params[i] as int] == Some(f.blocks[0].params[i]));
            assert(params[i] == Arg::at(i).spec_value().index);
            assert(ir.ty(Arg::at(i).spec_value()) == Arg::at(i).spec_ty());
        }
    }
    let steps = lemma_run(ir, order, v, f, image, host, 0, m, mem, c, n);
    assert(returns_like(
        image,
        host,
        f,
        c,
        ir.after(host, Flow::At { block: 0, done: 0, m, mem }, n),
        steps,
    ));
}

/// There are no more blocks in the compile order than in the function.
pub(crate) proof fn lemma_order_short(ir: IrView, order: Seq<u64>)
    requires
        order.no_duplicates(),
        forall|j: int| 0 <= j < order.len() ==> (#[trigger] order[j]) < ir.blocks.len(),
        ir.blocks.len() <= u64::MAX,
    ensures
        order.len() <= u64::MAX,
{
    order.unique_seq_to_set();
    let all = vstd::set_lib::set_int_range(0, ir.blocks.len() as int);
    vstd::set_lib::lemma_int_range(0, ir.blocks.len() as int);
    let seen = order.to_set().map(|b: u64| b as int);
    assert(seen.subset_of(all)) by {
        assert forall|x: int| seen.contains(x) implies all.contains(x) by {
            let b = choose|b: u64| order.to_set().contains(b) && b as int == x;
            assert(order.contains(b));
            let j = order.index_of(b);
            assert(order[j] == b);
        }
    }
    vstd::set_lib::lemma_len_subset(seen, all);
    vstd::set_lib::lemma_map_size(order.to_set(), seen, |b: u64| b as int);
}

/// Adding parameters leaves the places of the blocks.
proof fn lemma_params_rest(ir: IrView, v: LowerView, params: Seq<u64>, n: int)
    requires
        v.blocks.len() > 0,
    ensures
        v.add_params(ir, params, n).block_of == v.block_of,
        v.add_params(ir, params, n).blocks.len() == v.blocks.len(),
    decreases n,
{
    if n > 0 {
        lemma_params_rest(ir, v, params, n - 1);
    }
}

/// The blocks are placed in the compile order.
pub(crate) proof fn lemma_places(ir: IrView, ptr_ty: ClifTy, order: Seq<u64>, n: int)
    requires
        order.no_duplicates(),
        forall|j: int| 0 <= j < order.len() ==> (#[trigger] order[j]) < ir.blocks.len(),
        0 <= n <= order.len() <= u64::MAX,
    ensures
        ({
            let w = LowerView::blank(ir, ptr_ty).add_blocks(ir, order, n);
            &&& w.blocks.len() == n
            &&& w.block_of.len() == ir.blocks.len()
            &&& forall|j: int|
                0 <= j < n ==> w.block_of[#[trigger] order[j] as int] == Some(j as u64)
        }),
    decreases n,
{
    if n > 0 {
        lemma_places(ir, ptr_ty, order, n - 1);
        let u = LowerView::blank(ir, ptr_ty).add_blocks(ir, order, n - 1);
        let b = order[n - 1];
        let data = ir.blocks[b as int];
        let v = LowerView {
            blocks: u.blocks.push(
                ClifBlockView { params: Seq::empty(), cold: data.is_cold, insts: Seq::empty() },
            ),
            block_of: u.block_of.update(b as int, Some(u.blocks.len() as u64)),
            ..u
        };
        lemma_params_rest(ir, v, data.parameters, data.parameters.len() as int);
    }
}

} // verus!
