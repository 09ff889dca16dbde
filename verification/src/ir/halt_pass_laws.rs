//! The halt checks leave the code of a function as it was: every block still
//! does what it did, in the same order, with nothing but checks in between.
use vstd::prelude::*;
use crate::ir::ExecIr;
use crate::ir::builder::ExecIrBuilder;
use crate::ir::model::{lemma_wf, IrView};
use crate::ir::types::{Block, BlockView, JumpView, SSAValue, Stmt, StmtKind, TerminatorView};

verus! {

/// Block `b` ends with a halt check: it looks at the halt reason, goes on to
/// block `next` if there is none, and otherwise to the block that takes it.
/// Neither edge passes anything.
pub open spec fn checks_before(w: IrView, b: u64, next: u64) -> bool {
    let data = w.blocks[b as int];
    &&& data.stmts.len() > 0
    &&& w.stmts[data.stmts.last().index as int].rvalue == StmtKind::LoadHaltReason
    &&& w.stmts[data.stmts.last().index as int].outputs.len() == 1
    &&& w.leave_and_take_halt is Some
    &&& data.terminator == TerminatorView::BrZ(
        SSAValue { index: w.stmts[data.stmts.last().index as int].outputs[0] },
        JumpView { parameters: Seq::empty(), target: Block { index: next } },
        JumpView { parameters: Seq::empty(), target: w.leave_and_take_halt->0 },
    )
}

/// The statements of the first `k` blocks along `way`, without the look at the
/// halt reason that ends each of them.
pub open spec fn code_along(w: IrView, way: Seq<u64>, k: nat) -> Seq<Stmt>
    decreases k,
{
    if k == 0 {
        Seq::empty()
    } else {
        code_along(w, way, (k - 1) as nat) + w.blocks[way[k - 1] as int].stmts.drop_last()
    }
}

/// The blocks along `way` do what `data` did, with a halt check at the end of
/// each but the last one. All but the first are among those from `from` on.
pub open spec fn does_the_same(w: IrView, data: BlockView, way: Seq<u64>, from: int) -> bool {
    &&& way.len() > 0
    &&& forall|i: int| 0 < i < way.len() ==> from <= #[trigger] way[i] < w.blocks.len()
    &&& forall|i: int|
        0 <= i < way.len() - 1 ==> checks_before(w, #[trigger] way[i], way[i + 1])
    &&& forall|i: int|
        0 < i < way.len() ==> w.blocks[#[trigger] way[i] as int].parameters.len() == 0
    &&& w.blocks[way[0] as int].parameters == data.parameters
    &&& code_along(w, way, (way.len() - 1) as nat) + w.blocks[way.last() as int].stmts == data.stmts
    &&& w.blocks[way.last() as int].terminator == data.terminator
}

/// How many of some statements are safepoints.
pub open spec fn pauses(w: IrView, stmts: Seq<Stmt>) -> int
    decreases stmts.len(),
{
    if stmts.len() == 0 {
        0
    } else {
        pauses(w, stmts.drop_last()) + if w.stmts[stmts.last().index as int].rvalue is Safepoint {
            1int
        } else {
            0
        }
    }
}

/// A halt check stands right behind a safepoint.
pub open spec fn checks_at_safepoint(w: IrView, b: u64) -> bool {
    let stmts = w.blocks[b as int].stmts;
    stmts.len() >= 2 && w.stmts[stmts[stmts.len() - 2].index as int].rvalue is Safepoint
}

/// The halt checks along `way` stand at the pace asked for: the first one behind
/// `first` safepoints, each of the others behind `every` more of them, and none is
/// missing at the end.
pub open spec fn paced(w: IrView, way: Seq<u64>, first: int, every: int) -> bool {
    &&& forall|i: int|
        0 <= i < way.len() - 1 ==> checks_at_safepoint(w, #[trigger] way[i]) && pauses(
            w,
            w.blocks[way[i] as int].stmts,
        ) == if i == 0 {
            first
        } else {
            every
        }
    &&& pauses(w, w.blocks[way.last() as int].stmts) < if way.len() == 1 {
        first
    } else {
        every
    }
}

proof fn lemma_pauses_kept(v: IrView, w: IrView, stmts: Seq<Stmt>)
    requires
        v.stmts.is_prefix_of(w.stmts),
        forall|k: int| 0 <= k < stmts.len() ==> (#[trigger] stmts[k]).index < v.stmts.len(),
    ensures
        pauses(w, stmts) == pauses(v, stmts),
    decreases stmts.len(),
{
    if stmts.len() > 0 {
        let rest = stmts.drop_last();
        assert forall|k: int| 0 <= k < rest.len() implies (#[trigger] rest[k]).index < v.stmts.len() by {
            assert(rest[k] == stmts[k]);
        }
        lemma_pauses_kept(v, w, rest);
        let last = stmts[stmts.len() - 1];
        assert(w.stmts[last.index as int] == v.stmts[last.index as int]);
    }
}

proof fn lemma_pauses_next(v: IrView, stmts: Seq<Stmt>, i: int)
    requires
        0 <= i < stmts.len(),
    ensures
        pauses(v, stmts.take(i + 1)) == pauses(v, stmts.take(i)) + if v.stmts[stmts[i].index as int].rvalue is Safepoint {
            1int
        } else {
            0
        },
{
    assert(stmts.take(i + 1).drop_last() =~= stmts.take(i));
    assert(stmts.take(i + 1).last() == stmts[i]);
}

/// A way keeps its pace while other blocks are worked on.
proof fn lemma_pace_stays(u: IrView, w: IrView, way: Seq<u64>, first: int, every: int)
    requires
        way.len() > 0,
        paced(u, way, first, every),
        stmts_known(u),
        u.stmts.is_prefix_of(w.stmts),
        forall|i: int|
            0 <= i < way.len() ==> (#[trigger] way[i]) < u.blocks.len() && w.blocks[way[i] as int]
                == u.blocks[way[i] as int],
    ensures
        paced(w, way, first, every),
{
    assert forall|i: int| 0 <= i < way.len() implies pauses(w, w.blocks[#[trigger] way[i] as int].stmts)
        == pauses(u, u.blocks[way[i] as int].stmts) && (checks_at_safepoint(u, way[i])
        ==> checks_at_safepoint(w, way[i])) by {
        let b = way[i] as int;
        let stmts = u.blocks[b].stmts;
        assert forall|k: int| 0 <= k < stmts.len() implies (#[trigger] stmts[k]).index < u.stmts.len() by {
            assert(u.blocks[b].stmts[k].index < u.stmts.len());
        }
        lemma_pauses_kept(u, w, stmts);
        if checks_at_safepoint(u, way[i]) {
            let s = stmts[stmts.len() - 2];
            assert(w.stmts[s.index as int] == u.stmts[s.index as int]);
        }
    }
    assert(way[way.len() - 1] == way.last());
}

/// The first piece of a block that is split behind a safepoint.
proof fn lemma_first_piece(v: IrView, w: IrView, stmts: Seq<Stmt>, head: Seq<Stmt>, i: int)
    requires
        0 <= i < stmts.len(),
        v.stmts.is_prefix_of(w.stmts),
        forall|k: int| 0 <= k < stmts.len() ==> (#[trigger] stmts[k]).index < v.stmts.len(),
        v.stmts[stmts[i].index as int].rvalue is Safepoint,
        head.len() == i + 2,
        head.drop_last() == stmts.take(i + 1),
        w.stmts[head.last().index as int].rvalue is LoadHaltReason,
    ensures
        pauses(w, head) == pauses(v, stmts.take(i)) + 1,
        w.stmts[head[head.len() - 2].index as int].rvalue is Safepoint,
{
    let part = stmts.take(i + 1);
    assert forall|k: int| 0 <= k < part.len() implies (#[trigger] part[k]).index < v.stmts.len() by {
        assert(part[k] == stmts[k]);
    }
    lemma_pauses_kept(v, w, part);
    lemma_pauses_next(v, stmts, i);
    assert(head[i] == head.drop_last()[i]);
    assert(head[i] == stmts[i]);
    assert(w.stmts[stmts[i].index as int] == v.stmts[stmts[i].index as int]);
}

/// Every statement that a block names is there.
spec fn stmts_known(v: IrView) -> bool {
    forall|j: int, k: int|
        0 <= j < v.blocks.len() && 0 <= k < v.blocks[j].stmts.len() ==> (
        #[trigger] v.blocks[j].stmts[k]).index < v.stmts.len()
}

/// What a piece of the pass leaves alone.
spec fn pass_frame(v: IrView, w: IrView, block: int) -> bool {
    &&& v.blocks.len() <= w.blocks.len()
    &&& v.stmts.len() <= w.stmts.len()
    &&& v.stmts.is_prefix_of(w.stmts)
    &&& w.halt_check_every == v.halt_check_every
    &&& v.leave_and_take_halt is Some ==> w.leave_and_take_halt == v.leave_and_take_halt
    &&& forall|j: int|
        0 <= j < v.blocks.len() && j != block ==> #[trigger] w.blocks[j] == v.blocks[j]
}

/// The remembered block is one of the function.
spec fn leave_known(v: IrView) -> bool {
    v.leave_and_take_halt matches Some(leave) ==> leave.index < v.blocks.len()
}

proof fn lemma_insertion(v: IrView, block: Block, at: int)
    requires
        v.has_block(block),
        leave_known(v),
        0 < at <= v.block(block).stmts.len(),
        v.insert_halt_check(block, at).0.blocks.len() <= u64::MAX,
        v.insert_halt_check(block, at).0.stmts.len() <= u64::MAX,
    ensures
        ({
            let (w, next) = v.insert_halt_check(block, at);
            let data = v.block(block);
            &&& pass_frame(v, w, block.index as int)
            &&& leave_known(w)
            &&& next.index == v.blocks.len()
            &&& w.has_block(next)
            &&& next != block
            &&& checks_before(w, block.index, next.index)
            &&& w.block(block).parameters == data.parameters
            &&& w.block(block).stmts.drop_last() == data.stmts.take(at)
            &&& w.block(block).stmts.len() == at + 1
            &&& v.stmts.len() <= w.block(block).stmts.last().index < w.stmts.len()
            &&& w.block(next).stmts == data.stmts.skip(at)
            &&& w.block(next).terminator == data.terminator
            &&& w.block(next).parameters.len() == 0
            &&& w.current == v.current
        }),
{
    reveal(IrView::emit);
    let (w, next) = v.insert_halt_check(block, at);
    let (v1, c) = v.split(block, at);
    let (v2, leave) = v1.leave_block();
    let (v3, reason) = v2.at(block).emit1(StmtKind::LoadHaltReason);
    assert(v2.blocks.len() == w.blocks.len());
    assert(leave != c);
    assert(w.block(block).stmts.drop_last() =~= v.block(block).stmts.take(at));
    assert(v3.stmts.last().outputs =~= seq![reason.index]);
    assert(w.stmts =~= v3.stmts);
    assert(w.stmts.last() == w.stmts[w.block(block).stmts.last().index as int]);
}

/// Code along a way does not change when blocks that are not on it do.
proof fn lemma_code_along(v: IrView, w: IrView, way: Seq<u64>, other: Seq<u64>, at: int, k: nat)
    requires
        k + at <= other.len(),
        k <= way.len(),
        0 <= at,
        forall|i: int| 0 <= i < k ==> #[trigger] way[i] == other[at + i],
        forall|i: int|
            0 <= i < k ==> w.blocks[#[trigger] way[i] as int] == v.blocks[way[i] as int],
    ensures
        code_along(w, other, at as nat) + code_along(v, way, k) == code_along(w, other, at as nat + k),
    decreases k,
{
    if k > 0 {
        lemma_code_along(v, w, way, other, at, (k - 1) as nat);
        assert(way[k - 1] == other[at + k - 1]);
        assert(code_along(w, other, at as nat) + code_along(v, way, k) =~= (code_along(
            w,
            other,
            at as nat,
        ) + code_along(v, way, (k - 1) as nat)) + w.blocks[way[k - 1] as int].stmts.drop_last());
    } else {
        assert(code_along(w, other, at as nat) + Seq::<Stmt>::empty() =~= code_along(
            w,
            other,
            at as nat,
        ));
    }
}

proof fn lemma_insertion_grows(v: IrView, block: Block, at: int)
    requires
        v.has_block(block),
        leave_known(v),
    ensures
        ({
            let (w, next) = v.insert_halt_check(block, at);
            &&& w.blocks.len() > v.blocks.len()
            &&& w.stmts.len() > v.stmts.len()
            &&& leave_known(w)
            &&& w.has_block(next)
        }),
{
    reveal(IrView::emit);
    let v1 = v.split(block, at).0;
    assert(v1.blocks.len() == v.blocks.len() + 1);
    let v2 = v1.leave_block().0;
    assert(v2.blocks.len() >= v1.blocks.len());
    assert(v2.stmts.len() >= v1.stmts.len());
    assert(leave_known(v2));
    assert(v.insert_halt_check(block, at).0.blocks.len() == v2.blocks.len());
}

proof fn lemma_check_from_grows(v: IrView, block: Block, i: int, count: int, left: nat)
    requires
        v.has_block(block),
        leave_known(v),
    ensures
        leave_known(v.check_from(block, i, count, left)),
        v.check_from(block, i, count, left).blocks.len() >= v.blocks.len(),
        v.check_from(block, i, count, left).stmts.len() >= v.stmts.len(),
    decreases left,
{
    if left > 0 {
        if !v.is_safepoint(v.block(block).stmts[i]) {
            lemma_check_from_grows(v, block, i + 1, count, (left - 1) as nat);
        } else if count + 1 < v.halt_check_every {
            lemma_check_from_grows(v, block, i + 1, count + 1, (left - 1) as nat);
        } else {
            let (w, next) = v.insert_halt_check(block, i + 1);
            lemma_insertion_grows(v, block, i + 1);
            lemma_check_from_grows(w, next, 0, 0, (left - 1) as nat);
        }
    }
}

proof fn lemma_check_from(v: IrView, block: Block, i: int, count: int, left: nat) -> (way: Seq<u64>)
    requires
        v.has_block(block),
        leave_known(v),
        0 <= i,
        i + left == v.block(block).stmts.len(),
        v.check_from(block, i, count, left).blocks.len() <= u64::MAX,
        v.check_from(block, i, count, left).stmts.len() <= u64::MAX,
    ensures
        pass_frame(v, v.check_from(block, i, count, left), block.index as int),
        leave_known(v.check_from(block, i, count, left)),
        way.len() > 0,
        way[0] == block.index,
        does_the_same(
            v.check_from(block, i, count, left),
            v.block(block),
            way,
            v.blocks.len() as int,
        ),
        stmts_known(v) && 0 <= count < v.halt_check_every ==> paced(
            v.check_from(block, i, count, left),
            way,
            v.halt_check_every - count + pauses(v, v.block(block).stmts.take(i)),
            v.halt_check_every as int,
        ),
    decreases left,
{
    let data = v.block(block);
    if left == 0 {
        let way = seq![block.index];
        assert(code_along(v, way, 0) + data.stmts =~= data.stmts);
        assert(data.stmts.take(i) =~= data.stmts);
        way
    } else if !v.is_safepoint(v.block(block).stmts[i]) {
        lemma_pauses_next(v, data.stmts, i);
        lemma_check_from(v, block, i + 1, count, (left - 1) as nat)
    } else if count + 1 < v.halt_check_every {
        lemma_pauses_next(v, data.stmts, i);
        lemma_check_from(v, block, i + 1, count + 1, (left - 1) as nat)
    } else {
        let (u, next) = v.insert_halt_check(block, i + 1);
        lemma_insertion_grows(v, block, i + 1);
        lemma_check_from_grows(u, next, 0, 0, (left - 1) as nat);
        lemma_insertion(v, block, i + 1);
        let rest = lemma_check_from(u, next, 0, 0, (left - 1) as nat);
        let w = u.check_from(next, 0, 0, (left - 1) as nat);
        let way = seq![block.index] + rest;
        assert(w.blocks[block.index as int] == u.blocks[block.index as int]);
        assert forall|j: int| 0 < j < way.len() implies v.blocks.len() <= #[trigger] way[j]
            < w.blocks.len() && w.blocks[way[j] as int].parameters.len() == 0 by {
            assert(way[j] == rest[j - 1]);
        }
        assert forall|j: int| 0 <= j < way.len() - 1 implies checks_before(
            w,
            #[trigger] way[j],
            way[j + 1],
        ) by {
            if j == 0 {
                let last = u.blocks[block.index as int].stmts.last();
                assert(w.stmts[last.index as int] == u.stmts[last.index as int]);
                assert(way[1] == rest[0]);
            } else {
                assert(way[j] == rest[j - 1]);
                assert(way[j + 1] == rest[j]);
                assert(checks_before(w, rest[j - 1], rest[j - 1 + 1]));
            }
        }
        assert(way.last() == rest.last());
        let k = (rest.len() - 1) as nat;
        lemma_code_along(w, w, rest, way, 1, k);
        reveal_with_fuel(code_along, 2);
        assert(code_along(w, way, 1) =~= data.stmts.take(i + 1));
        assert(code_along(w, way, 1) + code_along(w, rest, k) == code_along(w, way, 1 + k));
        assert((way.len() - 1) as nat == 1 + k);
        assert(code_along(w, way, 1 + k) + w.blocks[way.last() as int].stmts =~= data.stmts.take(
            i + 1,
        ) + (code_along(w, rest, k) + w.blocks[rest.last() as int].stmts));
        assert(data.stmts.take(i + 1) + data.stmts.skip(i + 1) =~= data.stmts);
        if stmts_known(v) && 0 <= count < v.halt_check_every {
            lemma_insertion_known(v, block, i + 1);
            assert(u.block(next).stmts.take(0) =~= Seq::empty());
            let head = w.blocks[block.index as int].stmts;
            assert forall|k: int| 0 <= k < data.stmts.len() implies (#[trigger] data.stmts[k]).index
                < v.stmts.len() by {
                assert(v.blocks[block.index as int].stmts[k].index < v.stmts.len());
            }
            assert(checks_before(w, way[0], way[1]));
            lemma_first_piece(v, w, data.stmts, head, i);
            assert forall|j: int| 0 <= j < way.len() - 1 implies checks_at_safepoint(
                w,
                #[trigger] way[j],
            ) && pauses(w, w.blocks[way[j] as int].stmts) == (if j == 0 {
                1 + pauses(v, data.stmts.take(i))
            } else {
                v.halt_check_every as int
            }) by {
                if j > 0 {
                    assert(way[j] == rest[j - 1]);
                }
            }
        }
        way
    }
}

proof fn lemma_check_blocks_grows(v: IrView, b: int, end: int)
    requires
        leave_known(v),
        0 <= b,
        end <= v.blocks.len(),
        end <= u64::MAX,
    ensures
        v.check_blocks(b, end).blocks.len() >= v.blocks.len(),
        v.check_blocks(b, end).stmts.len() >= v.stmts.len(),
    decreases end - b,
{
    if b < end {
        let passed = if b == 0 {
            0
        } else {
            v.halt_check_every - 1
        };
        let left = v.blocks[b].stmts.len();
        lemma_check_from_grows(v, Block { index: b as u64 }, 0, passed, left);
        lemma_check_blocks_grows(
            v.check_from(Block { index: b as u64 }, 0, passed, left),
            b + 1,
            end,
        );
    }
}

/// A way that is there stays as it is while the blocks from `b` on are worked
/// on.
proof fn lemma_way_stays(u: IrView, w: IrView, data: BlockView, way: Seq<u64>, end: int, b: int)
    requires
        does_the_same(u, data, way, end),
        way[0] < b <= end <= u.blocks.len(),
        u.blocks.len() <= w.blocks.len(),
        u.stmts.is_prefix_of(w.stmts),
        u.leave_and_take_halt is Some ==> w.leave_and_take_halt == u.leave_and_take_halt,
        forall|j: int|
            0 <= j < u.blocks.len() && !(b <= j < end) ==> #[trigger] w.blocks[j] == u.blocks[j],
        forall|j: int, k: int|
            0 <= j < u.blocks.len() && 0 <= k < u.blocks[j].stmts.len() ==> (
            #[trigger] u.blocks[j].stmts[k]).index < u.stmts.len(),
    ensures
        does_the_same(w, data, way, end),
{
    assert forall|i: int| 0 <= i < way.len() implies w.blocks[#[trigger] way[i] as int]
        == u.blocks[way[i] as int] by {
        if i > 0 {
            assert(end <= way[i] < u.blocks.len());
        }
    }
    assert forall|i: int| 0 <= i < way.len() - 1 implies checks_before(
        w,
        #[trigger] way[i],
        way[i + 1],
    ) by {
        assert(checks_before(u, way[i], way[i + 1]));
        let stmts = u.blocks[way[i] as int].stmts;
        assert(stmts[stmts.len() - 1].index < u.stmts.len());
    }
    lemma_code_along(u, w, way, way, 0, (way.len() - 1) as nat);
    assert(code_along(w, way, 0) + code_along(u, way, (way.len() - 1) as nat) =~= code_along(
        u,
        way,
        (way.len() - 1) as nat,
    ));
    assert(w.blocks[way.last() as int] == u.blocks[way.last() as int]);
}

proof fn lemma_insertion_known(v: IrView, block: Block, at: int)
    requires
        v.has_block(block),
        leave_known(v),
        stmts_known(v),
        0 < at <= v.block(block).stmts.len(),
        v.insert_halt_check(block, at).0.blocks.len() <= u64::MAX,
        v.insert_halt_check(block, at).0.stmts.len() <= u64::MAX,
    ensures
        stmts_known(v.insert_halt_check(block, at).0),
{
    reveal(IrView::emit);
    let (w, next) = v.insert_halt_check(block, at);
    let (v1, c) = v.split(block, at);
    let (v2, leave) = v1.leave_block();
    assert(v2.blocks.len() == w.blocks.len());
    assert forall|j: int, k: int|
        0 <= j < v1.blocks.len() && 0 <= k < v1.blocks[j].stmts.len() implies (
    #[trigger] v1.blocks[j].stmts[k]).index < v1.stmts.len() by {
        if j == v.blocks.len() {
            assert(v1.blocks[j].stmts[k] == v.blocks[block.index as int].stmts[at + k]);
        } else {
            assert(v1.blocks[j].stmts[k] == v.blocks[j].stmts[k]);
        }
    }
    assert(stmts_known(v1));
    assert forall|j: int, k: int|
        0 <= j < v2.blocks.len() && 0 <= k < v2.blocks[j].stmts.len() implies (
    #[trigger] v2.blocks[j].stmts[k]).index < v2.stmts.len() by {
        if j < v1.blocks.len() {
            assert(v2.blocks[j].stmts[k] == v1.blocks[j].stmts[k]);
        }
    }
    assert(stmts_known(v2));
    assert forall|j: int, k: int|
        0 <= j < w.blocks.len() && 0 <= k < w.blocks[j].stmts.len() implies (
    #[trigger] w.blocks[j].stmts[k]).index < w.stmts.len() by {
        if k < v2.blocks[j].stmts.len() {
            assert(w.blocks[j].stmts[k] == v2.blocks[j].stmts[k]);
        }
    }
}

proof fn lemma_check_from_known(v: IrView, block: Block, i: int, count: int, left: nat)
    requires
        v.has_block(block),
        leave_known(v),
        stmts_known(v),
        0 <= i,
        i + left == v.block(block).stmts.len(),
        v.check_from(block, i, count, left).blocks.len() <= u64::MAX,
        v.check_from(block, i, count, left).stmts.len() <= u64::MAX,
    ensures
        stmts_known(v.check_from(block, i, count, left)),
    decreases left,
{
    if left > 0 {
        if !v.is_safepoint(v.block(block).stmts[i]) {
            lemma_check_from_known(v, block, i + 1, count, (left - 1) as nat);
        } else if count + 1 < v.halt_check_every {
            lemma_check_from_known(v, block, i + 1, count + 1, (left - 1) as nat);
        } else {
            let (w, next) = v.insert_halt_check(block, i + 1);
            lemma_insertion_grows(v, block, i + 1);
            lemma_check_from_grows(w, next, 0, 0, (left - 1) as nat);
            lemma_insertion(v, block, i + 1);
            lemma_insertion_known(v, block, i + 1);
            lemma_check_from_known(w, next, 0, 0, (left - 1) as nat);
        }
    }
}

/// Working on the blocks from `b` on leaves those before as they are, and every
/// one from `b` on does afterwards what it did.
proof fn lemma_check_blocks(v: IrView, b: int, end: int, of: int) -> (way: Seq<u64>)
    requires
        leave_known(v),
        stmts_known(v),
        0 <= b <= end <= v.blocks.len(),
        end <= u64::MAX,
        v.halt_check_every > 0,
        b <= of < end,
        v.check_blocks(b, end).blocks.len() <= u64::MAX,
        v.check_blocks(b, end).stmts.len() <= u64::MAX,
    ensures
        way.len() > 0,
        way[0] == of,
        does_the_same(v.check_blocks(b, end), v.blocks[of], way, end),
        paced(
            v.check_blocks(b, end),
            way,
            if of == 0 {
                v.halt_check_every as int
            } else {
                1
            },
            v.halt_check_every as int,
        ),
    decreases end - b,
{
    let passed = if b == 0 {
        0
    } else {
        v.halt_check_every - 1
    };
    let block = Block { index: b as u64 };
    let left = v.blocks[b].stmts.len();
    let u = v.check_from(block, 0, passed, left);
    let w = v.check_blocks(b, end);
    lemma_check_from_grows(v, block, 0, passed, left);
    lemma_check_blocks_grows(u, b + 1, end);
    let first = lemma_check_from(v, block, 0, passed, left);
    lemma_check_from_known(v, block, 0, passed, left);
    if of == b {
        lemma_blocks_kept(u, b + 1, end);
        assert forall|i: int| 0 < i < first.len() implies end <= #[trigger] first[i]
            < u.blocks.len() by {}
        lemma_way_stays(u, w, v.blocks[b], first, end, b + 1);
        assert(v.blocks[b].stmts.take(0) =~= Seq::empty());
        assert forall|i: int| 0 <= i < first.len() implies (#[trigger] first[i]) < u.blocks.len()
            && w.blocks[first[i] as int] == u.blocks[first[i] as int] by {}
        lemma_pace_stays(
            u,
            w,
            first,
            if of == 0 {
                v.halt_check_every as int
            } else {
                1
            },
            v.halt_check_every as int,
        );
        first
    } else {
        assert(u.blocks[of] == v.blocks[of]);
        lemma_check_blocks(u, b + 1, end, of)
    }
}

/// Working on the blocks from `b` up to `end` leaves all others as they are.
proof fn lemma_blocks_kept(v: IrView, b: int, end: int)
    requires
        leave_known(v),
        0 <= b <= end <= v.blocks.len(),
        end <= u64::MAX,
        v.check_blocks(b, end).blocks.len() <= u64::MAX,
        v.check_blocks(b, end).stmts.len() <= u64::MAX,
    ensures
        ({
            let w = v.check_blocks(b, end);
            &&& v.blocks.len() <= w.blocks.len()
            &&& v.stmts.is_prefix_of(w.stmts)
            &&& v.leave_and_take_halt is Some ==> w.leave_and_take_halt == v.leave_and_take_halt
            &&& forall|j: int|
                0 <= j < v.blocks.len() && !(b <= j < end) ==> #[trigger] w.blocks[j]
                    == v.blocks[j]
        }),
    decreases end - b,
{
    if b < end {
        let passed = if b == 0 {
            0
        } else {
            v.halt_check_every - 1
        };
        let block = Block { index: b as u64 };
        let left = v.blocks[b].stmts.len();
        let u = v.check_from(block, 0, passed, left);
        lemma_check_from_grows(v, block, 0, passed, left);
        lemma_check_blocks_grows(u, b + 1, end);
        let _ = lemma_check_from(v, block, 0, passed, left);
        lemma_blocks_kept(u, b + 1, end);
        let w = v.check_blocks(b, end);
        assert forall|j: int| 0 <= j < v.blocks.len() && !(b <= j < end) implies #[trigger] w.blocks[j]
            == v.blocks[j] by {
            assert(u.blocks[j] == v.blocks[j]);
        }
    }
}

/// Inserting the halt checks keeps the code: the statements of every block are
/// still done in their order, and the block ends as it did; only halt checks
/// that go on to the rest stand in between. No statement changes. The checks
/// stand behind every `halt_check_every`th safepoint of a block, counted from the
/// entry of the function on, or from the first safepoint of any other block.
pub proof fn law_halt_checks_keep_code(builder: &mut ExecIrBuilder, block: u64) -> (way: Seq<u64>)
    requires
        old(builder).wf(),
        block < old(builder)@.blocks.len(),
        final(builder).wf(),
        call_ensures(ExecIrBuilder::insert_halt_checks, (builder,), ()),
    ensures
        way.len() > 0,
        way[0] == block,
        does_the_same(
            final(builder)@,
            old(builder)@.blocks[block as int],
            way,
            old(builder)@.blocks.len() as int,
        ),
        paced(
            final(builder)@,
            way,
            if block == 0 {
                old(builder)@.halt_check_every as int
            } else {
                1
            },
            old(builder)@.halt_check_every as int,
        ),
        old(builder)@.stmts.is_prefix_of(final(builder)@.stmts),
        final(builder)@.leave_and_take_halt matches Some(leave) ==> final(builder)@.leaves(leave),
{
    let v = old(builder)@;
    let w = final(builder)@;
    lemma_wf(v);
    lemma_wf(w);
    reveal(IrView::wf);
    assert(stmts_known(v)) by {
        assert forall|j: int, k: int|
            0 <= j < v.blocks.len() && 0 <= k < v.blocks[j].stmts.len() implies (
        #[trigger] v.blocks[j].stmts[k]).index < v.stmts.len() by {
            assert(v.block_ok(v.blocks[j]));
        }
    }
    lemma_blocks_kept(v, 0, v.blocks.len() as int);
    lemma_check_blocks(v, 0, v.blocks.len() as int, block as int)
}

/// Finishing a function keeps its code; see [`law_halt_checks_keep_code`].
pub proof fn law_build_keeps_code(builder: ExecIrBuilder, r: ExecIr, block: u64) -> (way: Seq<u64>)
    requires
        builder.wf(),
        block < builder@.blocks.len(),
        call_ensures(ExecIrBuilder::build, (builder,), r),
    ensures
        way.len() > 0,
        way[0] == block,
        does_the_same(
            r@,
            builder@.blocks[block as int],
            way,
            builder@.blocks.len() as int,
        ),
        paced(
            r@,
            way,
            if block == 0 {
                builder@.halt_check_every as int
            } else {
                1
            },
            builder@.halt_check_every as int,
        ),
        builder@.stmts.is_prefix_of(r@.stmts),
        r@.leave_and_take_halt matches Some(leave) ==> r@.leaves(leave),
{
    let v = builder@;
    let w = r@;
    lemma_wf(v);
    lemma_wf(w);
    reveal(IrView::wf);
    assert(stmts_known(v)) by {
        assert forall|j: int, k: int|
            0 <= j < v.blocks.len() && 0 <= k < v.blocks[j].stmts.len() implies (
        #[trigger] v.blocks[j].stmts[k]).index < v.stmts.len() by {
            assert(v.block_ok(v.blocks[j]));
        }
    }
    lemma_blocks_kept(v, 0, v.blocks.len() as int);
    lemma_check_blocks(v, 0, v.blocks.len() as int, block as int)
}

/// One halt check: the block keeps what stood before it and then looks at the
/// halt reason; what stood behind it, and how the block ended, has moved to the
/// block that is returned, where control goes if there is no halt reason.
pub proof fn law_insert_halt_check(
    builder: &mut ExecIrBuilder,
    block: Block,
    insert_at: usize,
    r: Block,
)
    requires
        old(builder).wf(),
        old(builder)@.has_block(block),
        0 < insert_at <= old(builder)@.blocks[block.index as int].stmts.len(),
        call_ensures(ExecIrBuilder::insert_halt_check_at, (builder, block, insert_at), r),
    ensures
        ({
            let before = old(builder)@.blocks[block.index as int];
            let head = final(builder)@.blocks[block.index as int];
            let tail = final(builder)@.blocks[r.index as int];
            &&& r.index == old(builder)@.blocks.len()
            &&& head.parameters == before.parameters
            &&& head.stmts.len() == insert_at + 1
            &&& forall|i: int| 0 <= i < insert_at ==> #[trigger] head.stmts[i] == before.stmts[i]
            &&& checks_before(final(builder)@, block.index, r.index)
            &&& tail.parameters.len() == 0
            &&& tail.stmts.len() == before.stmts.len() - insert_at
            &&& forall|i: int|
                0 <= i < tail.stmts.len() ==> #[trigger] tail.stmts[i] == before.stmts[insert_at + i]
            &&& tail.terminator == before.terminator
        }),
        forall|j: int|
            0 <= j < old(builder)@.blocks.len() && j != block.index ==> #[trigger] final(
                builder)@.blocks[j] == old(builder)@.blocks[j],
        old(builder)@.stmts.is_prefix_of(final(builder)@.stmts),
{
    let v = old(builder)@;
    let w = final(builder)@;
    lemma_wf(v);
    lemma_wf(w);
    lemma_insertion(v, block, insert_at as int);
    let head = w.blocks[block.index as int].stmts;
    assert forall|i: int| 0 <= i < insert_at implies #[trigger] head[i]
        == v.block(block).stmts[i] by {
        assert(head.drop_last()[i] == v.block(block).stmts.take(insert_at as int)[i]);
    }
}

} // verus!
