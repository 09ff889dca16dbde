//! What a halt check does when it runs.
use vstd::prelude::*;
use crate::ir::execution::{lemma_comes_next, lemma_comes_self, Flow, Host, HostMem};
use crate::ir::model::{lemma_wf, lemma_wf_block, IrView, StmtView};
use crate::ir::semantics::{Machine, Val};
use crate::ir::types::{Block, StmtKind, TerminatorView};

verus! {

/// A halt request is taken once: whoever takes it gets it, and unless
/// somebody sets another one, the next look finds none. A look that does not
/// take it leaves it to the next one.
pub proof fn law_halt_taken_once(v: IrView, host: Host, stmt: StmtView, m: Machine, mem: HostMem)
    requires
        stmt.rvalue == StmtKind::TakeHaltReason || stmt.rvalue == StmtKind::LoadHaltReason,
        stmt.outputs.len() == 1,
    ensures
        ({
            let after = v.exec(host, stmt, m, mem);
            &&& after matches Some((m2, mem2))
            &&& m2.env == m.env.insert(stmt.outputs[0], Val::Int(mem.halt()))
            &&& m2.state == m.state
            &&& (mem2.halts)(mem2.looks) is None ==> mem2.halt() == (
            if stmt.rvalue == StmtKind::TakeHaltReason {
                0
            } else {
                mem.halt()
            })
        }),
{
}

/// Where a run is once the halt check of block `b` found no reason: on the
/// way on.
pub open spec fn passed_on(v: IrView, b: u64, m: Machine, mem: HostMem) -> Flow {
    let block = v.blocks[b as int];
    let reason = v.stmts[block.stmts.last().index as int].outputs[0];
    match block.terminator {
        TerminatorView::BrZ(_, on, _) => v.follow(
            on,
            Machine { env: m.env.insert(reason, Val::Int(0)), ..m },
            mem.looked(),
        ),
        _ => Flow::Stuck,
    }
}

/// A halt check looks at the halt reason. If there is none, the run goes on
/// behind the check. Otherwise it takes the reason and returns to the caller
/// with what it took, which leaves no reason behind; nothing else changes.
pub proof fn law_halt_check(v: IrView, host: Host, b: u64, m: Machine, mem: HostMem)
    requires
        v.wf(),
        b < v.blocks.len(),
        v.polls(b),
    ensures
        ({
            let last = v.blocks[b as int].stmts.len() - 1;
            let start = Flow::At { block: b as int, done: last, m, mem };
            if mem.halt() == 0 {
                v.comes_to(host, start, passed_on(v, b, m, mem))
            } else {
                exists|after: Machine| #[trigger]
                    v.comes_to(
                        host,
                        start,
                        Flow::Returned {
                            code: mem.looked().halt(),
                            m: after,
                            mem: mem.looked().exchanged(0),
                        },
                    ) && after.state == m.state
            }
        }),
{
    lemma_wf(v);
    lemma_wf_block(v, Block { index: b });
    let block = v.blocks[b as int];
    let last = block.stmts.len() - 1;
    assert(block.stmts[last] == block.stmts.last());
    let looking = v.stmts[block.stmts.last().index as int];
    let start = Flow::At { block: b as int, done: last, m, mem };
    let m1 = v.halted(looking, m, mem);
    let f1 = Flow::At { block: b as int, done: last + 1, m: m1, mem: mem.looked() };
    lemma_comes_self(v, host, start);
    lemma_comes_next(v, host, start, start);
    assert(v.advance(host, start) == f1);
    lemma_comes_next(v, host, start, f1);
    if mem.halt() != 0 {
        let leave = v.leave_and_take_halt->0;
        let data = v.block(leave);
        let taking = v.stmts[data.stmts[0].index as int];
        let f2 = Flow::At { block: leave.index as int, done: 0, m: m1, mem: mem.looked() };
        assert(v.advance(host, f1) == f2);
        lemma_comes_next(v, host, start, f2);
        let m3 = v.halted(taking, m1, mem.looked());
        let mem3 = mem.looked().exchanged(0);
        let f3 = Flow::At { block: leave.index as int, done: 1, m: m3, mem: mem3 };
        assert(v.advance(host, f2) == f3);
        lemma_comes_next(v, host, start, f3);
        let f4 = Flow::Returned { code: mem.looked().halt(), m: m3, mem: mem3 };
        assert(v.advance(host, f3) == f4);
        assert(m3.state == m.state);
    }
}

} // verus!
