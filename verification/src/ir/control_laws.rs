//! How control goes through a function that is being built: what becomes of a
//! terminator, what an edge passes on, and where a block can lead.
use vstd::prelude::*;
use arrayvec::ArrayVec;
use crate::inline_list::pair_items;
use crate::ir::builder::ExecIrBuilder;
use crate::ir::execution::{bound, Flow, Host, HostMem};
use crate::ir::layout::HaltReason;
use crate::ir::model::{lemma_wf, passes, IrView};
use crate::ir::semantics::{Machine, Val};
use crate::ir::types::{
    Block, Jump, JumpView, SSAValue, Terminator, TerminatorView, Type, TypeFull,
};

verus! {

/// Where a terminator sends a run of `v`: a condition that is zero or false
/// takes the first edge with its arguments, any other the second edge with
/// its arguments.
pub open spec fn sent(v: IrView, terminator: Terminator, m: Machine, mem: HostMem) -> Flow {
    match terminator {
        Terminator::Return => Flow::Returned { code: 0, m, mem },
        Terminator::ReturnCode(value) => match m.env[value.index] {
            Val::Int(code) => Flow::Returned { code, m, mem },
            Val::Bool(_) => Flow::Stuck,
        },
        Terminator::Br(jump) => v.follow(jump@, m, mem),
        Terminator::BrZ(cond, zero, non_zero) => match m.env[cond.index] {
            Val::Int(number) => if number == 0 {
                v.follow(zero@, m, mem)
            } else {
                v.follow(non_zero@, m, mem)
            },
            Val::Bool(truth) => if truth {
                v.follow(non_zero@, m, mem)
            } else {
                v.follow(zero@, m, mem)
            },
        },
    }
}

/// The operand of a terminator has been computed.
pub open spec fn operand_known(terminator: Terminator, m: Machine) -> bool {
    match terminator {
        Terminator::ReturnCode(value) => m.env.contains_key(value.index),
        Terminator::BrZ(cond, _, _) => m.env.contains_key(cond.index),
        _ => true,
    }
}

/// Ending a block keeps the meaning of the terminator: from every state of the
/// machine, a run that comes to the end of the block goes where the terminator
/// that was passed sends it, with the same values. The statements and the
/// parameters of the block stay, and so do all other blocks.
pub proof fn law_terminate_block(
    builder: &mut ExecIrBuilder,
    block: Block,
    terminator: Terminator,
    host: Host,
    m: Machine,
    mem: HostMem,
)
    requires
        old(builder)@.has_block(block),
        operand_known(terminator, m),
        call_ensures(ExecIrBuilder::terminate_block, (builder, block, terminator), ()),
    ensures
        final(builder)@.advance(
            host,
            Flow::At {
                block: block.index as int,
                done: old(builder)@.blocks[block.index as int].stmts.len() as int,
                m,
                mem,
            },
        ) == sent(final(builder)@, terminator, m, mem),
        final(builder)@.blocks.len() == old(builder)@.blocks.len(),
        final(builder)@.blocks[block.index as int].terminated,
        final(builder)@.blocks[block.index as int].stmts == old(
            builder,
        )@.blocks[block.index as int].stmts,
        final(builder)@.blocks[block.index as int].parameters == old(
            builder,
        )@.blocks[block.index as int].parameters,
        final(builder)@.stmts == old(builder)@.stmts,
        forall|i: int|
            0 <= i < old(builder)@.blocks.len() && i != block.index ==> #[trigger] final(builder)@.blocks[i] == old(builder)@.blocks[i],
{
}

/// Ending the current block is ending it as any other.
pub proof fn law_terminate(
    builder: &mut ExecIrBuilder,
    terminator: Terminator,
    host: Host,
    m: Machine,
    mem: HostMem,
)
    requires
        old(builder).wf(),
        operand_known(terminator, m),
        call_ensures(ExecIrBuilder::terminate, (builder, terminator), ()),
    ensures
        ({
            let block = old(builder)@.current.index as int;
            &&& final(builder)@.advance(
                host,
                Flow::At {
                    block,
                    done: old(builder)@.blocks[block].stmts.len() as int,
                    m,
                    mem,
                },
            ) == sent(final(builder)@, terminator, m, mem)
            &&& final(builder)@.blocks[block].stmts == old(builder)@.blocks[block].stmts
            &&& final(builder)@.stmts == old(builder)@.stmts
            &&& forall|i: int|
                0 <= i < old(builder)@.blocks.len() && i != block ==> #[trigger] final(builder)@.blocks[i] == old(builder)@.blocks[i]
        }),
{
    lemma_wf(old(builder)@);
}

/// A branch on a condition that is not zero is one on a condition that is zero
/// with its edges exchanged.
pub proof fn law_branch_non_zero(
    cond: SSAValue,
    non_zero: Jump,
    zero: Jump,
    r: Terminator,
    v: IrView,
    m: Machine,
    mem: HostMem,
)
    requires
        call_ensures(Terminator::BrNZ, (cond, non_zero, zero), r),
        m.env.contains_key(cond.index),
    ensures
        m.env[cond.index] == Val::Int(0) || m.env[cond.index] == Val::Bool(false) ==> sent(
            v,
            r,
            m,
            mem,
        ) == v.follow(zero@, m, mem),
        !(m.env[cond.index] == Val::Int(0) || m.env[cond.index] == Val::Bool(false)) ==> sent(
            v,
            r,
            m,
            mem,
        ) == v.follow(non_zero@, m, mem),
{
}

/// An edge goes to its target and passes the values it was given, in order.
pub proof fn law_jump(target: Block, parameters: &[SSAValue], r: Jump, bare: Jump)
    requires
        call_ensures(Jump::with, (target, parameters), r),
        call_ensures(Jump::to, (target,), bare),
    ensures
        r.target == target,
        r.parameters@.len() == parameters@.len(),
        forall|i: int|
            0 <= i < parameters@.len() ==> #[trigger] r.parameters@[i] == parameters@[i].index,
        bare.target == target,
        bare.parameters@.len() == 0,
{
}

proof fn lemma_bound(env: Map<u64, Val>, params: Seq<u64>, args: Seq<u64>, n: nat)
    requires
        n <= params.len(),
        params.no_duplicates(),
    ensures
        forall|i: int|
            #![trigger params[i]]
            0 <= i < n ==> bound(env, params, args, n).contains_key(params[i]) && bound(
                env,
                params,
                args,
                n,
            )[params[i]] == env[args[i]],
        forall|x: u64|
            (forall|i: int| 0 <= i < n ==> #[trigger] params[i] != x) ==> (#[trigger] bound(
                env,
                params,
                args,
                n,
            ).contains_key(x) <==> env.contains_key(x)) && bound(env, params, args, n)[x] == env[x],
    decreases n,
{
    if n > 0 {
        lemma_bound(env, params, args, (n - 1) as nat);
        assert forall|x: u64|
            (forall|i: int| 0 <= i < n ==> #[trigger] params[i] != x) implies (#[trigger] bound(
            env,
            params,
            args,
            n,
        ).contains_key(x) <==> env.contains_key(x)) && bound(env, params, args, n)[x] == env[x] by {
            assert(params[n - 1] != x);
            assert(bound(env, params, args, (n - 1) as nat).contains_key(x) <==> env.contains_key(
                x,
            ));
        }
    }
}

/// Following an edge gives the parameters of the target what the edge passes,
/// all at once, and leaves every other value, the guest CPU's state and memory
/// as they were.
pub proof fn law_edge(v: IrView, jump: JumpView, m: Machine, mem: HostMem)
    requires
        v.wf(),
        v.has_block(jump.target),
        v.blocks[jump.target.index as int].parameters.len() == jump.parameters.len(),
        forall|i: int|
            0 <= i < jump.parameters.len() ==> m.env.contains_key(#[trigger] jump.parameters[i]),
    ensures
        ({
            let params = v.blocks[jump.target.index as int].parameters;
            &&& v.follow(jump, m, mem) matches Flow::At { block, done, m: there, mem: kept }
            &&& block == jump.target.index
            &&& done == 0
            &&& kept == mem
            &&& there.state == m.state
            &&& forall|i: int|
                #![trigger params[i]]
                0 <= i < params.len() ==> there.env.contains_key(params[i]) && there.env[params[i]]
                    == m.env[jump.parameters[i]]
            &&& forall|x: u64|
                !params.contains(x) ==> (#[trigger] there.env.contains_key(x)
                    <==> m.env.contains_key(x)) && there.env[x] == m.env[x]
        }),
{
    let at = jump.target.index as int;
    let params = v.blocks[at].parameters;
    lemma_wf(v);
    reveal(IrView::bound_once);
    assert(params.no_duplicates()) by {
        assert forall|i: int, j: int|
            0 <= i < params.len() && 0 <= j < params.len() && i != j implies params[i]
            != params[j] by {
            assert(passes(v, at, i, params[i]));
            assert(passes(v, at, j, params[j]));
        }
    }
    lemma_bound(m.env, params, jump.parameters, params.len());
    let there = bound(m.env, params, jump.parameters, params.len());
    assert forall|x: u64| !params.contains(x) implies (#[trigger] there.contains_key(x)
        <==> m.env.contains_key(x)) && there[x] == m.env[x] by {
        assert forall|i: int| 0 <= i < params.len() implies #[trigger] params[i] != x by {}
    }
}

/// The successors of a block are listed once each, and are the blocks that a
/// run can go to from its end: every run goes to one of them or nowhere, and
/// each of them is the target of an edge of the terminator.
pub proof fn law_successors(builder: &ExecIrBuilder, block: Block, r: ArrayVec<u64, 2>)
    requires
        call_ensures(ExecIrBuilder::successors, (builder, block), r),
    ensures
        pair_items(r).no_duplicates(),
        forall|host: Host, m: Machine, mem: HostMem|
            #![trigger builder@.advance(
                host,
                Flow::At {
                    block: block.index as int,
                    done: builder@.blocks[block.index as int].stmts.len() as int,
                    m,
                    mem,
                },
            )]
            builder@.advance(
                host,
                Flow::At {
                    block: block.index as int,
                    done: builder@.blocks[block.index as int].stmts.len() as int,
                    m,
                    mem,
                },
            ) matches Flow::At { block: next, .. } ==> pair_items(r).contains(next as u64),
        forall|next: u64| #[trigger]
            pair_items(r).contains(next) ==> match builder@.blocks[block.index as int].terminator {
                TerminatorView::Br(jump) => next == jump.target.index,
                TerminatorView::BrZ(_, zero, non_zero) => next == zero.target.index || next
                    == non_zero.target.index,
                _ => false,
            },
{
    let items = pair_items(r);
    match builder@.blocks[block.index as int].terminator {
        TerminatorView::Br(jump) => {
            assert(items[0] == jump.target.index);
        },
        TerminatorView::BrZ(_, zero, non_zero) => {
            assert(items[0] == zero.target.index);
            if zero.target != non_zero.target {
                assert(items[1] == non_zero.target.index);
            }
        },
        _ => {},
    }
}

/// A new block is empty, takes nothing, and stands behind all others, which
/// stay as they were.
pub proof fn law_create_block(builder: &mut ExecIrBuilder, r: Block)
    requires
        old(builder).wf(),
        call_ensures(ExecIrBuilder::create_block, (builder,), r),
    ensures
        r.index == old(builder)@.blocks.len(),
        final(builder)@.blocks.len() == old(builder)@.blocks.len() + 1,
        final(builder)@.blocks[r.index as int].stmts.len() == 0,
        final(builder)@.blocks[r.index as int].parameters.len() == 0,
        !final(builder)@.blocks[r.index as int].terminated,
        !final(builder)@.blocks[r.index as int].is_cold,
        forall|i: int|
            0 <= i < old(builder)@.blocks.len() ==> #[trigger] final(builder)@.blocks[i] == old(
                builder,
            )@.blocks[i],
        final(builder)@.current == old(builder)@.current,
{
}

/// A new parameter comes last, is a value that did not exist before, and has
/// the type asked for. No other block changes.
pub proof fn law_add_parameter(builder: &mut ExecIrBuilder, block: Block, ty: Type, r: SSAValue)
    requires
        old(builder)@.has_block(block),
        old(builder).wf(),
        call_ensures(ExecIrBuilder::add_block_parameter_at, (builder, block, ty), r) || (block
            == old(builder)@.current && call_ensures(
            ExecIrBuilder::add_block_parameter,
            (builder, ty),
            r,
        )),
    ensures
        ({
            let before = old(builder)@.blocks[block.index as int];
            let after = final(builder)@.blocks[block.index as int];
            &&& after.parameters.len() == before.parameters.len() + 1
            &&& after.parameters.last() == r.index
            &&& forall|i: int|
                0 <= i < before.parameters.len() ==> #[trigger] after.parameters[i]
                    == before.parameters[i]
            &&& after.stmts == before.stmts
            &&& after.terminator == before.terminator
        }),
        r.index >= old(builder)@.types.len(),
        r.index < final(builder)@.types.len(),
        ty matches Type::Int(width) ==> final(builder)@.types[r.index as int] == TypeFull::Int(width),
        ty is Bool ==> final(builder)@.types[r.index as int] == TypeFull::Bool,
        forall|i: int|
            0 <= i < old(builder)@.blocks.len() && i != block.index ==> #[trigger] final(builder)@.blocks[i] == old(builder)@.blocks[i],
{
    lemma_wf(old(builder)@);
}

/// Marking a block as cold changes nothing else, and the entry is never cold.
pub proof fn law_mark_cold(builder: &mut ExecIrBuilder, block: Block)
    requires
        old(builder)@.has_block(block),
        call_ensures(ExecIrBuilder::mark_block_bold, (builder, block), ()),
    ensures
        final(builder)@.blocks.len() == old(builder)@.blocks.len(),
        final(builder)@.stmts == old(builder)@.stmts,
        forall|i: int|
            #![trigger final(builder)@.blocks[i]]
            0 <= i < old(builder)@.blocks.len() ==> {
                let before = old(builder)@.blocks[i];
                let after = final(builder)@.blocks[i];
                &&& after.stmts == before.stmts
                &&& after.parameters == before.parameters
                &&& after.terminator == before.terminator
                &&& after.terminated == before.terminated
                &&& after.is_cold == (before.is_cold || (i == block.index && i != 0))
            },
{
}

/// A guard on a condition: a run goes on in a new empty block, which becomes
/// the current one, if the condition is as expected, and to `fail` if it is
/// not, with all values as they were.
pub proof fn law_assert_or_jmp_to(
    builder: &mut ExecIrBuilder,
    cond: SSAValue,
    expected: bool,
    fail: Block,
    r: Block,
    host: Host,
    m: Machine,
    mem: HostMem,
)
    requires
        old(builder).wf(),
        old(builder)@.has_block(fail),
        old(builder)@.blocks[fail.index as int].parameters.len() == 0,
        m.env.contains_key(cond.index),
        call_ensures(ExecIrBuilder::assert_or_jmp_to, (builder, cond, expected, fail), r),
    ensures
        r.index == old(builder)@.blocks.len(),
        final(builder)@.current == r,
        final(builder)@.blocks[r.index as int].stmts.len() == 0,
        !final(builder)@.blocks[r.index as int].terminated,
        ({
            let truth = match m.env[cond.index] {
                Val::Int(number) => number != 0,
                Val::Bool(truth) => truth,
            };
            final(builder)@.advance(
                host,
                Flow::At {
                    block: old(builder)@.current.index as int,
                    done: old(builder)@.blocks[old(builder)@.current.index as int].stmts.len() as int,
                    m,
                    mem,
                },
            ) == (Flow::At {
                block: if truth == expected {
                    r.index as int
                } else {
                    fail.index as int
                },
                done: 0,
                m,
                mem,
            })
        }),
{
    let v = old(builder)@;
    let w = final(builder)@;
    lemma_wf(v);
    let none = Seq::<u64>::empty();
    assert(bound(m.env, none, none, 0) == m.env);
    assert(w.blocks[r.index as int].parameters == none);
    assert(w.blocks[fail.index as int].parameters =~= none);
    assert(Machine { env: m.env, ..m } == m);
}

/// A halt block is a new cold block that returns its reason, whatever the
/// machine holds. The current block stays the current one.
pub proof fn law_halt_block(
    builder: &mut ExecIrBuilder,
    reason: HaltReason,
    r: Block,
    host: Host,
    m: Machine,
    mem: HostMem,
)
    requires
        old(builder).wf(),
        old(builder)@.types.len() + 2 <= u64::MAX,
        old(builder)@.stmts.len() < u64::MAX,
        call_ensures(ExecIrBuilder::make_halt_block, (builder, reason), r),
    ensures
        r.index == old(builder)@.blocks.len(),
        final(builder)@.blocks[r.index as int].is_cold,
        final(builder)@.current == old(builder)@.current,
        forall|i: int|
            0 <= i < old(builder)@.blocks.len() ==> #[trigger] final(builder)@.blocks[i] == old(
                builder,
            )@.blocks[i],
        ({
            let start = Flow::At { block: r.index as int, done: 0, m, mem };
            &&& final(builder)@.after(host, start, 2) matches Flow::Returned {
                code,
                m: end,
                mem: kept,
            }
            &&& code == reason.code
            &&& end.state == m.state
            &&& kept == mem
        }),
{
    reveal(IrView::emit);
    let v = old(builder)@;
    let w = final(builder)@;
    lemma_wf(v);
    let at = r.index as int;
    assert(w.blocks[at].stmts.len() == 1);
    assert(w.blocks[at].stmts[0].index == v.stmts.len());
    assert(w.stmts[v.stmts.len() as int].outputs =~= seq![v.types.len() as u64]);
    reveal_with_fuel(IrView::after, 3);
}

} // verus!
