//! Halt checks: the polls of the halt-reason word that let a compiled
//! function be stopped between guest instructions.
use vstd::prelude::*;
use crate::ir::builder::ExecIrBuilder;
use crate::ir::compose::edge;
use crate::ir::model::{
    binds, lemma_blocks_changed, lemma_places_kept, lemma_wf, lemma_wf_block, passes, IrView,
};
use crate::ir::types::{
    Block, BlockData, BlockView, Jump, Stmt, StmtKind, Terminator, TerminatorView,
};
use crate::inline_list::InlineList;

verus! {

impl IrView {
    /// Whether a statement is a safepoint.
    pub open spec fn is_safepoint(self, stmt: Stmt) -> bool {
        self.stmts[stmt.index as int].rvalue == StmtKind::Safepoint
    }

    /// Takes what follows place `at` of a block out of it, into a new block.
    pub open spec fn split(self, block: Block, at: int) -> (IrView, Block) {
        let data = self.block(block);
        let head = BlockView {
            stmts: data.stmts.take(at),
            terminator: TerminatorView::Return,
            ..data
        };
        let tail = BlockView { parameters: Seq::empty(), stmts: data.stmts.skip(at), ..data };
        (
            IrView { blocks: self.blocks.update(block.index as int, head).push(tail), ..self },
            Block { index: self.blocks.len() as u64 },
        )
    }

    /// Splits a block at `at` and lets its first part poll the halt reason:
    /// it goes on with the second part if there is none, and leaves
    /// otherwise.
    pub open spec fn insert_halt_check(self, block: Block, at: int) -> (IrView, Block) {
        let (v1, continuation) = self.split(block, at);
        let (v2, leave) = v1.leave_block();
        let (v3, reason) = v2.at(block).emit1(StmtKind::LoadHaltReason);
        (
            v3.at(self.current).terminate(
                block,
                TerminatorView::BrZ(reason, edge(continuation), edge(leave)),
            ),
            continuation,
        )
    }
}

/// A block that is split binds in its two parts what it bound.
proof fn lemma_split_once(v: IrView, block: Block, at: int)
    requires
        v.wf(),
        v.has_block(block),
        0 <= at <= v.block(block).stmts.len(),
    ensures
        v.split(block, at).0.bound_once(),
{
    lemma_wf(v);
    reveal(IrView::bound_once);
    let w = v.split(block, at).0;
    let head = block.index as int;
    let tail = v.blocks.len() as int;
    assert forall|b: int, i: int, x: u64| #[trigger] binds(w, b, i, x) implies (if b == tail {
        binds(v, head, at + i, x)
    } else {
        binds(v, b, i, x) && (b == head ==> i < at)
    }) by {
        if b == tail {
            assert(w.blocks[b].stmts[i] == v.blocks[head].stmts[at + i]);
        } else if b == head {
            assert(w.blocks[b].stmts[i] == v.blocks[head].stmts[i]);
        } else {
            assert(w.blocks[b] == v.blocks[b]);
        }
    }
    assert forall|b: int, i: int, x: u64| #[trigger] passes(w, b, i, x) implies passes(
        v,
        b,
        i,
        x,
    ) by {
        assert(b != tail);
    }
    assert forall|b: int, i: int, d: int, j: int, x: u64| #[trigger]
        binds(w, b, i, x) && #[trigger] binds(w, d, j, x) implies b == d && i == j by {
        let (b1, i1) = if b == tail {
            (head, at + i)
        } else {
            (b, i)
        };
        let (d1, j1) = if d == tail {
            (head, at + j)
        } else {
            (d, j)
        };
        assert(binds(v, b1, i1, x) && binds(v, d1, j1, x));
    }
    assert forall|b: int, i: int, d: int, j: int, x: u64| #[trigger]
        passes(w, b, i, x) && #[trigger] passes(w, d, j, x) implies b == d && i == j by {
        assert(passes(v, b, i, x) && passes(v, d, j, x));
    }
    assert forall|b: int, i: int, d: int, j: int, x: u64|
        !(#[trigger] binds(w, b, i, x) && #[trigger] passes(w, d, j, x)) by {
        if binds(w, b, i, x) && passes(w, d, j, x) {
            assert(passes(v, d, j, x));
            if b == tail {
                assert(binds(v, head, at + i, x));
            } else {
                assert(binds(v, b, i, x));
            }
        }
    }
    assert(w.blocks[0].parameters == v.blocks[0].parameters);
}

impl ExecIrBuilder {
    /// Whether a statement is a safepoint.
    fn is_safepoint(&self, stmt: Stmt) -> (r: bool)
        requires
            stmt.index < self@.stmts.len(),
        ensures
            r == self@.is_safepoint(stmt),
    {
        assert(self.stmts.len() == self@.stmts.len());
        let rvalue: StmtKind = self.stmts[stmt.index as usize].rvalue;
        assert(rvalue == self@.stmts[stmt.index as int].rvalue);
        rvalue == StmtKind::Safepoint
    }

    /// Takes what follows place `at` of a block out of it, into a new block.
    fn split_block(&mut self, block: Block, at: usize) -> (r: Block)
        requires
            old(self).wf(),
            old(self)@.may_change(block),
            at <= old(self)@.block(block).stmts.len(),
        ensures
            final(self).wf(),
            old(self)@.grows_to(final(self)@),
            (final(self)@, r) == old(self)@.split(block, at as int),
            r.index == old(self)@.blocks.len(),
    {
        let ghost v = self@;
        assert(self.blocks.len() == v.blocks.len());
        let b: usize = block.index as usize;
        assert(self.blocks@[b as int]@ == v.block(block));
        let tail: Vec<Stmt> = self.blocks[b].stmts.split_off(at);
        let mut terminator = Terminator::Return;
        core::mem::swap(&mut terminator, &mut self.blocks[b].terminator);
        let continuation = Block { index: self.blocks.len() as u64 };
        let data = BlockData {
            parameters: InlineList::new(),
            stmts: tail,
            terminated: self.blocks[b].terminated,
            terminator,
            is_cold: self.blocks[b].is_cold,
        };
        self.blocks.push(data);
        proof {
            assert(self.blocks.len() == v.blocks.len() + 1);
            let w = v.split(block, at as int).0;
            assert(self@.blocks =~= w.blocks);
            assert(self@ =~= w);
            lemma_wf(v);
            lemma_wf_block(v, block);
            assert(v.grows_to(w));
            assert forall|i: int| 0 <= i < w.blocks.len() implies w.block_ok(
                #[trigger] w.blocks[i],
            ) by {
                if i < v.blocks.len() {
                    lemma_wf_block(v, Block { index: i as u64 });
                    assert(v.block_ok(v.blocks[i]));
                }
            }
            lemma_split_once(v, block, at as int);
            lemma_blocks_changed(v, w);
        }
        continuation
    }

    /// Inserts a halt check immediately after a safepoint in `block`.
    ///
    /// `insert_at` is the statement insertion index, so the safepoint must be
    /// at `insert_at - 1`.
    ///
    /// This splits `block` at `insert_at`:
    ///
    /// - the original block keeps `stmts[..insert_at]`;
    /// - the original block then loads the halt reason and branches;
    /// - the zero branch goes to a newly-created continuation block
    ///   containing the old `stmts[insert_at..]` and the old terminator;
    /// - the non-zero branch goes to a cold block that returns the halt
    ///   reason.
    ///
    /// Returns the continuation block. Callers that are scanning forward
    /// through the original instruction stream should resume from the
    /// returned block.
    #[verifier::spinoff_prover]
    #[verifier::rlimit(60)]
    pub fn insert_halt_check_at(&mut self, block: Block, insert_at: usize) -> (r: Block)
        requires
            old(self).wf(),
            old(self)@.has_block(block),
            0 < insert_at <= old(self)@.block(block).stmts.len(),
            old(self)@.is_safepoint(old(self)@.block(block).stmts[insert_at - 1]),
        ensures
            final(self).wf(),
            old(self)@.grows_to(final(self)@),
            (final(self)@, r) == old(self)@.insert_halt_check(block, insert_at as int),
            r.index == old(self)@.blocks.len(),
            final(self)@.polls(block.index),
    {
        proof {
            lemma_wf(self@);
        }
        let original = self.current_block();
        let continuation = self.split_block(block, insert_at);
        let leave = self.get_leave_and_take_halt();
        self.switch_to(block);
        let reason = self.emit_1ret_stmt(StmtKind::LoadHaltReason);
        assert(self@.ty(reason) is Int);
        self.switch_to(original);
        let ghost v3 = self@;
        assert(self.blocks.len() == v3.blocks.len());
        // the only place where a block is opened again
        self.blocks[block.index as usize].terminated = false;
        let ghost v4 = self@;
        proof {
            assert(v4.blocks =~= v3.blocks.update(
                block.index as int,
                BlockView { terminated: false, ..v3.block(block) },
            ));
            assert(v4 =~= (IrView { blocks: v4.blocks, ..v3 }));
            assert forall|i: int| 0 <= i < v4.blocks.len() implies v4.block_ok(
                #[trigger] v4.blocks[i],
            ) by {
                lemma_wf(v3);
                lemma_wf_block(v3, Block { index: i as u64 });
                assert(v3.block_ok(v3.blocks[i]));
            }
            lemma_wf(v3);
            lemma_places_kept(v3, v4);
            lemma_blocks_changed(v3, v4);
        }
        self.terminate_block(
            block,
            Terminator::BrZ(reason, Jump::to(continuation), Jump::to(leave)),
        );
        proof {
            let terminator = TerminatorView::BrZ(reason, edge(continuation), edge(leave));
            assert(self@.blocks =~= v3.terminate(block, terminator).blocks);
            assert(self@ =~= v3.terminate(block, terminator));
            lemma_halt_check(old(self)@, block, insert_at as int);
        }
        continuation
    }
}

impl IrView {
    /// The number of safepoints among some statements.
    pub open spec fn safepoints(self, stmts: Seq<Stmt>) -> nat
        decreases stmts.len(),
    {
        if stmts.len() == 0 {
            0
        } else {
            self.safepoints(stmts.drop_last()) + if self.is_safepoint(stmts.last()) {
                1nat
            } else {
                0
            }
        }
    }

    /// Whether a block ends with a halt check: it loads the halt reason last,
    /// and if there is one, goes to the block that takes and returns it.
    pub open spec fn polls(self, b: u64) -> bool {
        let block = self.blocks[b as int];
        &&& block.stmts.len() > 0
        &&& self.stmts[block.stmts.last().index as int].rvalue == StmtKind::LoadHaltReason
        &&& block.terminator matches TerminatorView::BrZ(reason, _, leave)
            && self.stmts[block.stmts.last().index as int].outputs == seq![reason.index]
            && leave == edge(leave.target) && self.leave_and_take_halt == Some(leave.target)
            && self.leaves(leave.target)
    }

    /// How many safepoints have passed since the last halt check when control
    /// that goes along `path` comes to its block `k`.
    pub open spec fn unpolled(self, path: Seq<u64>, k: int) -> nat
        decreases k,
    {
        if k <= 0 || self.polls(path[k - 1]) {
            0
        } else {
            self.unpolled(path, k - 1) + self.safepoints(self.blocks[path[k - 1] as int].stmts)
        }
    }

    /// No way through the function passes more than `halt_check_every`
    /// safepoints without a halt check.
    pub open spec fn polled_often(self) -> bool {
        forall|path: Seq<u64>, k: int|
            self.is_path(path) && path[0] == 0 && 0 <= k < path.len() ==> #[trigger] self.unpolled(
                path,
                k,
            ) + self.safepoints(self.blocks[path[k] as int].stmts) <= self.halt_check_every
    }

    /// Puts halt checks into a block from place `i` on, where `left`
    /// statements are left and `count` safepoints have passed: one after
    /// every `halt_check_every` safepoints.
    pub open spec fn check_from(self, block: Block, i: int, count: int, left: nat) -> IrView
        decreases left,
    {
        if left == 0 {
            self
        } else if !self.is_safepoint(self.block(block).stmts[i]) {
            self.check_from(block, i + 1, count, (left - 1) as nat)
        } else if count + 1 < self.halt_check_every {
            self.check_from(block, i + 1, count + 1, (left - 1) as nat)
        } else {
            let (v, continuation) = self.insert_halt_check(block, i + 1);
            v.check_from(continuation, 0, 0, (left - 1) as nat)
        }
    }

    /// Puts halt checks into the blocks from `b` up to `end`. Nothing is
    /// known of how control comes to a block other than the entry, so as many
    /// safepoints may have passed there as can pass without a check.
    pub open spec fn check_blocks(self, b: int, end: int) -> IrView
        decreases end - b,
    {
        if b >= end {
            self
        } else {
            let passed = if b == 0 {
                0
            } else {
                self.halt_check_every - 1
            };
            self.check_from(
                Block { index: b as u64 },
                0,
                passed,
                self.blocks[b].stmts.len(),
            ).check_blocks(b + 1, end)
        }
    }

    /// The function with its halt checks.
    pub open spec fn with_halt_checks(self) -> IrView {
        self.check_blocks(0, self.blocks.len() as int)
    }
}

/// With at most `levels[b]` safepoints passed, block `b` keeps the bound and
/// hands on a count that the blocks after it allow for.
spec fn keeps_bound(v: IrView, levels: Seq<nat>, b: int) -> bool {
    let count = levels[b] + v.safepoints(v.blocks[b].stmts);
    &&& count <= v.halt_check_every
    &&& v.polls(b as u64) || (count < v.halt_check_every && forall|t: u64|
        #[trigger] v.targets(b as u64).contains(t) ==> t < levels.len() && levels[t as int]
            == v.halt_check_every - 1)
}

/// If every block keeps the bound, every path does.
proof fn lemma_paths_polled(v: IrView, levels: Seq<nat>, path: Seq<u64>, k: int)
    requires
        v.wf(),
        levels.len() == v.blocks.len(),
        forall|b: int| 0 <= b < v.blocks.len() ==> #[trigger] keeps_bound(v, levels, b),
        v.is_path(path),
        path[0] == 0,
        0 <= k < path.len(),
    ensures
        path[k] < v.blocks.len(),
        v.unpolled(path, k) <= levels[path[k] as int],
        v.unpolled(path, k) + v.safepoints(v.blocks[path[k] as int].stmts) <= v.halt_check_every,
    decreases k,
{
    lemma_wf(v);
    if k > 0 {
        lemma_paths_polled(v, levels, path, k - 1);
        let b = path[k - 1];
        assert(v.branches(path, k - 1));
        assert(v.targets(b).contains(path[k]));
        assert(keeps_bound(v, levels, b as int));
        lemma_wf_block(v, Block { index: b });
    }
    assert(keeps_bound(v, levels, path[k] as int));
}

/// The safepoints among statements do not change when the IR grows.
proof fn lemma_safepoints_kept(v: IrView, w: IrView, stmts: Seq<Stmt>)
    requires
        v.stmts.is_prefix_of(w.stmts),
        forall|i: int| 0 <= i < stmts.len() ==> (#[trigger] stmts[i]).index < v.stmts.len(),
    ensures
        w.safepoints(stmts) == v.safepoints(stmts),
    decreases stmts.len(),
{
    if stmts.len() > 0 {
        let last = stmts.last();
        assert(stmts[stmts.len() - 1] == last);
        assert(w.stmts[last.index as int] == v.stmts[last.index as int]);
        let rest = stmts.drop_last();
        assert forall|i: int| 0 <= i < rest.len() implies (#[trigger] rest[i]).index
            < v.stmts.len() by {
            assert(rest[i] == stmts[i]);
        }
        lemma_safepoints_kept(v, w, rest);
    }
}

/// What inserting a halt check does to the blocks.
proof fn lemma_halt_check(v: IrView, block: Block, at: int)
    requires
        v.wf(),
        v.insert_halt_check(block, at).0.wf(),
        v.has_block(block),
        0 < at <= v.block(block).stmts.len(),
    ensures
        ({
            let (w, continuation) = v.insert_halt_check(block, at);
            let data = v.block(block);
            let b = block.index;
            &&& v.stmts.is_prefix_of(w.stmts)
            &&& w.halt_check_every == v.halt_check_every
            &&& w.blocks.len() >= v.blocks.len() + 1
            &&& w.blocks.len() <= v.blocks.len() + 2
            &&& v.leave_and_take_halt is Some ==> w.leave_and_take_halt == v.leave_and_take_halt
            &&& forall|j: int|
                0 <= j < v.blocks.len() && j != b ==> #[trigger] w.blocks[j] == v.blocks[j]
            &&& w.blocks[v.blocks.len() as int].stmts == data.stmts.skip(at)
            &&& w.blocks[v.blocks.len() as int].terminator == data.terminator
            &&& w.polls(b)
            &&& w.blocks[b as int].stmts.len() == at + 1
            &&& w.blocks[b as int].stmts.drop_last() == data.stmts.take(at)
            &&& !w.is_safepoint(w.blocks[b as int].stmts.last())
            &&& w.blocks.len() == v.blocks.len() + 2 ==> w.targets(
                (v.blocks.len() + 1) as u64,
            ).len() == 0 && w.safepoints(w.blocks[v.blocks.len() as int + 1].stmts) == 0
        }),
{
    reveal(IrView::emit);
    lemma_wf(v);
    let (w, continuation) = v.insert_halt_check(block, at);
    lemma_wf(w);
    let (v1, c) = v.split(block, at);
    let (v2, leave) = v1.leave_block();
    let (v3, reason) = v2.at(block).emit1(StmtKind::LoadHaltReason);
    assert(w.blocks.len() == v2.blocks.len());
    assert(v2.blocks.len() <= u64::MAX);
    assert(leave != c);
    assert(w.blocks[block.index as int].stmts.drop_last() =~= v.block(block).stmts.take(at));
    assert(v3.stmts.last().outputs =~= seq![reason.index]);
    assert(w.stmts =~= v3.stmts);
    if v.leave_and_take_halt is None {
        let stmts = w.blocks[v.blocks.len() as int + 1].stmts;
        assert(stmts.len() == 1);
        reveal_with_fuel(IrView::safepoints, 2);
        assert(stmts.drop_last().len() == 0);
    }
}

impl ExecIrBuilder {
    /// Puts halt checks into one block: one after every `halt_check_every`
    /// safepoints, if `passed` of them have passed before it.
    #[verifier::spinoff_prover]
    #[verifier::rlimit(100)]
    fn check_block(
        &mut self,
        b: u64,
        passed: u32,
        Ghost(end): Ghost<int>,
        Ghost(levels): Ghost<Seq<nat>>,
    ) -> (r: Ghost<Seq<nat>>)
        requires
            old(self).wf(),
            b < end <= old(self)@.blocks.len(),
            passed < old(self)@.halt_check_every,
            levels.len() == old(self)@.blocks.len(),
            levels[b as int] == passed,
            forall|t: int| 0 < t < end ==> #[trigger] levels[t] == old(self)@.halt_check_every - 1,
            forall|t: u64| #[trigger] old(self)@.targets(b).contains(t) ==> 0 < t < end,
            forall|j: int|
                0 <= j < b || end <= j < levels.len() ==> #[trigger] keeps_bound(
                    old(self)@,
                    levels,
                    j,
                ),
        ensures
            final(self).wf(),
            final(self)@.halt_check_every == old(self)@.halt_check_every,
            final(self)@ == old(self)@.check_from(
                Block { index: b },
                0,
                passed as int,
                old(self)@.block(Block { index: b }).stmts.len(),
            ),
            final(self)@.blocks.len() >= old(self)@.blocks.len(),
            old(self)@.stmts.is_prefix_of(final(self)@.stmts),
            forall|j: int|
                b < j < end ==> #[trigger] final(self)@.blocks[j] == old(self)@.blocks[j],
            r@.len() == final(self)@.blocks.len(),
            forall|t: int| 0 <= t < end ==> #[trigger] r@[t] == levels[t],
            forall|j: int|
                0 <= j <= b || end <= j < r@.len() ==> #[trigger] keeps_bound(final(self)@, r@, j),
    {
        let ghost v0 = self@;
        let ghost every = v0.halt_check_every;
        let ghost mut now = levels;
        let ghost goal = v0.check_from(
            Block { index: b },
            0,
            passed as int,
            v0.block(Block { index: b }).stmts.len(),
        );
        let every_exec: u32 = self.halt_check_every;
        let mut segment = Block { index: b };
        let mut i: usize = 0;
        let mut count: u32 = passed;
        let mut left: usize = {
            assert(self.blocks.len() == v0.blocks.len());
            assert(self.blocks@[b as int]@ == v0.blocks[b as int]);
            self.blocks[b as usize].stmts.len()
        };
        assert(v0.blocks[b as int].stmts.take(0) =~= Seq::<Stmt>::empty());
        while left > 0
            invariant
                self.wf(),
                every == every_exec,
                every == self@.halt_check_every,
                b < end <= v0.blocks.len() <= self@.blocks.len(),
                v0.stmts.is_prefix_of(self@.stmts),
                segment.index == b || end <= segment.index,
                self@.has_block(segment),
                i + left == self@.block(segment).stmts.len(),
                count < every,
                now.len() == self@.blocks.len(),
                now[segment.index as int] + self@.safepoints(
                    self@.block(segment).stmts.take(i as int),
                ) == count,
                forall|t: int| 0 <= t < end ==> #[trigger] now[t] == levels[t],
                forall|t: int| 0 < t < end ==> #[trigger] levels[t] == every - 1,
                forall|t: u64|
                    #[trigger] self@.targets(segment.index).contains(t) ==> 0 < t < end,
                forall|j: int| b < j < end ==> #[trigger] self@.blocks[j] == v0.blocks[j],
                forall|j: int|
                    (0 <= j <= b || end <= j < now.len()) && j != segment.index
                        ==> #[trigger] keeps_bound(self@, now, j),
                self@.check_from(segment, i as int, count as int, left as nat) == goal,
            decreases left,
        {
            let ghost v = self@;
            proof {
                lemma_wf(v);
                lemma_wf_block(v, segment);
            }
            assert(self.blocks.len() == v.blocks.len());
            assert(self.blocks@[segment.index as int]@ == v.block(segment));
            assert(i < self.blocks@[segment.index as int].stmts.len());
            let stmt: Stmt = self.blocks[segment.index as usize].stmts[i];
            let safepoint: bool = self.is_safepoint(stmt);
            let ghost stmts = v.block(segment).stmts;
            assert(stmts.take(i as int + 1).drop_last() =~= stmts.take(i as int));
            assert(stmts.take(i as int + 1).last() == stmts[i as int]);
            left = left - 1;
            i = i + 1;
            if safepoint {
                if count + 1 < every_exec {
                    count = count + 1;
                } else {
                    let continuation = self.insert_halt_check_at(segment, i);
                    proof {
                        let w = self@;
                        lemma_halt_check(v, segment, i as int);
                        let grown = if w.blocks.len() == v.blocks.len() + 1 {
                            now.push(0)
                        } else {
                            now.push(0).push((every - 1) as nat)
                        };
                        // the first part
                        lemma_safepoints_kept(v, w, stmts.take(i as int));
                        assert(keeps_bound(w, grown, segment.index as int));
                        // what has not changed
                        assert forall|j: int|
                            (0 <= j <= b || end <= j < grown.len()) && j
                                != continuation.index implies #[trigger] keeps_bound(w, grown, j) by {
                            if j < v.blocks.len() && j != segment.index {
                                assert(keeps_bound(v, now, j));
                                lemma_wf_block(v, Block { index: j as u64 });
                                lemma_safepoints_kept(v, w, v.blocks[j].stmts);
                                assert(w.targets(j as u64) == v.targets(j as u64));
                                if v.polls(j as u64) {
                                    let last = v.blocks[j].stmts.last();
                                    assert(v.blocks[j].stmts[v.blocks[j].stmts.len() - 1] == last);
                                    assert(
                                        w.stmts[last.index as int] == v.stmts[last.index as int]
                                    );
                                    assert(w.polls(j as u64));
                                }
                            }
                        }
                        assert(w.targets(continuation.index) == v.targets(segment.index));
                        assert(w.block(continuation).stmts.take(0) =~= Seq::<Stmt>::empty());
                        now = grown;
                    }
                    segment = continuation;
                    i = 0;
                    count = 0;
                }
            }
        }
        proof {
            let w = self@;
            assert(w.block(segment).stmts.take(i as int) =~= w.block(segment).stmts);
            assert(keeps_bound(w, now, segment.index as int));
        }
        Ghost(now)
    }

    /// Inserts halt checks: along any execution path there is at least one
    /// every `halt_check_every` safepoints.
    #[verifier::spinoff_prover]
    #[verifier::rlimit(100)]
    pub fn insert_halt_checks(&mut self)
        requires
            old(self).wf(),
        ensures
            final(self).wf(),
            final(self)@.halt_check_every == old(self)@.halt_check_every,
            final(self)@ == old(self)@.with_halt_checks(),
            final(self)@.polled_often(),
    {
        let ghost v0 = self@;
        proof {
            lemma_wf(v0);
        }
        let end: usize = self.blocks.len();
        let every: u32 = self.halt_check_every;
        let ghost mut levels: Seq<nat> = Seq::new(
            end as nat,
            |t: int|
                if t == 0 {
                    0
                } else {
                    (every - 1) as nat
                },
        );
        let mut b: usize = 0;
        while b < end
            invariant
                self.wf(),
                every == self@.halt_check_every,
                every == v0.halt_check_every,
                v0.wf(),
                every > 0,
                b <= end,
                end == v0.blocks.len(),
                end <= self@.blocks.len(),
                v0.stmts.is_prefix_of(self@.stmts),
                levels.len() == self@.blocks.len(),
                end > 0 ==> levels[0] == 0,
                forall|t: int| 0 < t < end ==> #[trigger] levels[t] == every - 1,
                forall|j: int| b <= j < end ==> #[trigger] self@.blocks[j] == v0.blocks[j],
                forall|j: int|
                    0 <= j < b || end <= j < levels.len() ==> #[trigger] keeps_bound(
                        self@,
                        levels,
                        j,
                    ),
                self@.check_blocks(b as int, end as int) == v0.with_halt_checks(),
            decreases end - b,
        {
            let passed: u32 = if b == 0 {
                0
            } else {
                every - 1
            };
            proof {
                lemma_wf(v0);
                lemma_wf_block(v0, Block { index: b as u64 });
                assert(self@.blocks[b as int] == v0.blocks[b as int]);
                assert forall|t: u64|
                    #[trigger] self@.targets(b as u64).contains(t) implies 0 < t < end by {
                    assert(v0.targets(b as u64).contains(t));
                }
            }
            let grown = self.check_block(b as u64, passed, Ghost(end as int), Ghost(levels));
            proof {
                levels = grown@;
            }
            b = b + 1;
        }
        proof {
            let w = self@;
            assert forall|path: Seq<u64>, k: int|
                w.is_path(path) && path[0] == 0 && 0 <= k < path.len() implies #[trigger] w.unpolled(
                path,
                k,
            ) + w.safepoints(w.blocks[path[k] as int].stmts) <= w.halt_check_every by {
                lemma_paths_polled(w, levels, path, k);
            }
        }
    }
}

} // verus!
