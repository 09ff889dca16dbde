//! The order in which blocks are compiled: reverse postorder, from the entry.
use vstd::prelude::*;
use arrayvec::ArrayVec;
use crate::inline_list::{pair_as_slice, InlineList};
use crate::ir::builder::ExecIrBuilder;
use crate::ir::model::{lemma_wf, lemma_wf_block, IrView};
use crate::ir::types::Block;

verus! {

/// How many of the numbers below `n` are not in `seen`.
pub open spec fn unseen(n: nat, seen: Set<u64>) -> nat
    decreases n,
{
    if n == 0 {
        0
    } else {
        unseen((n - 1) as nat, seen) + if seen.contains((n - 1) as u64) {
            0nat
        } else {
            1
        }
    }
}

pub proof fn lemma_unseen_grows(n: nat, seen: Set<u64>, more: Set<u64>)
    requires
        seen.subset_of(more),
    ensures
        unseen(n, more) <= unseen(n, seen),
    decreases n,
{
    if n > 0 {
        lemma_unseen_grows((n - 1) as nat, seen, more);
    }
}

pub proof fn lemma_unseen_insert(n: nat, seen: Set<u64>, b: u64)
    requires
        b < n,
        n <= u64::MAX + 1,
        !seen.contains(b),
    ensures
        unseen(n, seen.insert(b)) < unseen(n, seen),
    decreases n,
{
    if b == n - 1 {
        lemma_unseen_grows((n - 1) as nat, seen, seen.insert(b));
    } else {
        lemma_unseen_insert((n - 1) as nat, seen, b);
    }
}

impl IrView {
    /// The blocks that `b` can branch to.
    pub open spec fn targets(self, b: u64) -> Seq<u64> {
        self.blocks[b as int].terminator.targets()
    }

    /// The blocks that a depth-first walk from `b` finishes, in the order in
    /// which it finishes them, if it does not enter the blocks in `seen`.
    pub open spec fn visit(self, b: u64, seen: Set<u64>) -> Seq<u64>
        decreases unseen(self.blocks.len(), seen), 0nat,
    {
        if self.blocks.len() > u64::MAX || b >= self.blocks.len() || seen.contains(b) {
            Seq::empty()
        } else {
            proof {
                lemma_unseen_insert(self.blocks.len(), seen, b);
            }
            self.visit_all(self.targets(b), seen.insert(b)).push(b)
        }
    }

    /// The blocks that walks from several blocks, one after the other,
    /// finish.
    pub open spec fn visit_all(self, starts: Seq<u64>, seen: Set<u64>) -> Seq<u64>
        decreases unseen(self.blocks.len(), seen), starts.len(),
    {
        if starts.len() == 0 {
            Seq::empty()
        } else {
            let first = self.visit(starts[0], seen);
            proof {
                lemma_unseen_grows(self.blocks.len(), seen, seen.union(first.to_set()));
            }
            first + self.visit_all(starts.skip(1), seen.union(first.to_set()))
        }
    }

    /// The order in which blocks are compiled.
    pub open spec fn compile_order(self) -> Seq<u64> {
        self.visit(0, Set::empty()).reverse()
    }

    /// Block `i` of a path branches to the next one.
    pub open spec fn branches(self, path: Seq<u64>, i: int) -> bool {
        path[i] < self.blocks.len() && self.targets(path[i]).contains(path[i + 1])
    }

    /// Each block of a path branches to the next one.
    pub open spec fn is_path(self, path: Seq<u64>) -> bool {
        path.len() > 0 && forall|i: int| 0 <= i < path.len() - 1 ==> #[trigger] self.branches(path, i)
    }

    /// Whether control can go from `a` to `b`.
    pub open spec fn reaches(self, a: u64, b: u64) -> bool {
        exists|path: Seq<u64>| #[trigger] self.is_path(path) && path[0] == a && path.last() == b
    }
}

/// A frame of the walk: a block to enter, or one to leave.
pub struct Frame {
    pub block: u64,
    pub leave: bool,
}

/// What a walk with these frames on its stack still finishes.
spec fn finish(v: IrView, frames: Seq<Frame>, seen: Set<u64>) -> Seq<u64>
    decreases frames.len(),
{
    if frames.len() == 0 {
        Seq::empty()
    } else {
        let top = frames.last();
        if top.leave {
            seq![top.block] + finish(v, frames.drop_last(), seen)
        } else {
            let found = v.visit(top.block, seen);
            found + finish(v, frames.drop_last(), seen.union(found.to_set()))
        }
    }
}

/// The blocks that are marked.
spec fn marked(flags: Seq<bool>) -> Set<u64> {
    Set::new(|b: u64| b < flags.len() && flags[b as int])
}

/// The list that stands for a stack of frames.
spec fn holds_frames(list: Seq<u64>, frames: Seq<Frame>) -> bool {
    &&& list.len() == 2 * frames.len()
    &&& forall|i: int|
        0 <= i < frames.len() ==> list[2 * i] == (#[trigger] frames[i]).block && list[2 * i + 1]
            == (if frames[i].leave {
            1u64
        } else {
            0
        })
}

fn push_frame(list: &mut InlineList, Ghost(frames): Ghost<Seq<Frame>>, block: u64, leave: bool)
    requires
        holds_frames(old(list)@, frames),
    ensures
        holds_frames(final(list)@, frames.push(Frame { block, leave })),
{
    list.push(block);
    list.push(
        if leave {
            1
        } else {
            0
        },
    );
}

/// Entering an unseen block replaces it by its exit and its targets.
proof fn lemma_enter(v: IrView, rest: Seq<Frame>, b: u64, seen: Set<u64>)
    requires
        v.blocks.len() <= u64::MAX,
        b < v.blocks.len(),
        !seen.contains(b),
    ensures
        finish(v, rest.push(Frame { block: b, leave: false }), seen) == v.visit_all(
            v.targets(b),
            seen.insert(b),
        ) + (seq![b] + finish(
            v,
            rest,
            seen.insert(b).union(v.visit_all(v.targets(b), seen.insert(b)).to_set()),
        )),
{
    let frames = rest.push(Frame { block: b, leave: false });
    assert(frames.drop_last() =~= rest);
    let all = v.visit_all(v.targets(b), seen.insert(b));
    let found = v.visit(b, seen);
    assert(found == all.push(b));
    assert(seen.union(found.to_set()) =~= seen.insert(b).union(all.to_set())) by {
        assert forall|x: u64| seen.union(found.to_set()).contains(x) implies seen.insert(b).union(
            all.to_set(),
        ).contains(x) by {
            if found.to_set().contains(x) {
                let i = found.index_of(x);
                if i < all.len() {
                    assert(all[i] == x);
                }
            }
        }
        assert forall|x: u64| seen.insert(b).union(all.to_set()).contains(x) implies seen.union(
            found.to_set(),
        ).contains(x) by {
            if x == b {
                assert(found[all.len() as int] == b);
            } else if all.to_set().contains(x) {
                let i = all.index_of(x);
                assert(found[i] == x);
            }
        }
    }
    assert(finish(v, frames, seen) =~= all + (seq![b] + finish(
        v,
        rest,
        seen.insert(b).union(all.to_set()),
    )));
}

/// A block that has been seen is not entered again.
proof fn lemma_enter_seen(v: IrView, rest: Seq<Frame>, b: u64, seen: Set<u64>)
    requires
        seen.contains(b),
    ensures
        finish(v, rest.push(Frame { block: b, leave: false }), seen) == finish(v, rest, seen),
{
    let frames = rest.push(Frame { block: b, leave: false });
    assert(frames.drop_last() =~= rest);
    let found = v.visit(b, seen);
    assert(found =~= Seq::<u64>::empty());
    assert(seen.union(found.to_set()) =~= seen);
    assert(finish(v, frames, seen) =~= finish(v, rest, seen));
}

/// Frames that enter blocks one after the other walk from all of them.
proof fn lemma_enter_all(v: IrView, rest: Seq<Frame>, starts: Seq<u64>, seen: Set<u64>)
    requires
        starts.len() <= 2,
    ensures
        starts.len() == 0 ==> v.visit_all(starts, seen) == Seq::<u64>::empty(),
        starts.len() == 1 ==> finish(
            v,
            rest.push(Frame { block: starts[0], leave: false }),
            seen,
        ) == v.visit_all(starts, seen) + finish(
            v,
            rest,
            seen.union(v.visit_all(starts, seen).to_set()),
        ),
        starts.len() == 2 ==> finish(
            v,
            rest.push(Frame { block: starts[1], leave: false }).push(
                Frame { block: starts[0], leave: false },
            ),
            seen,
        ) == v.visit_all(starts, seen) + finish(
            v,
            rest,
            seen.union(v.visit_all(starts, seen).to_set()),
        ),
{
    reveal_with_fuel(IrView::visit_all, 3);
    reveal_with_fuel(finish, 3);
    if starts.len() == 1 {
        let first = v.visit(starts[0], seen);
        let frames = rest.push(Frame { block: starts[0], leave: false });
        assert(frames.drop_last() =~= rest);
        assert(starts.skip(1) =~= Seq::<u64>::empty());
        assert(v.visit_all(starts, seen) =~= first);
    } else if starts.len() == 2 {
        let first = v.visit(starts[0], seen);
        let seen1 = seen.union(first.to_set());
        let second = v.visit(starts[1], seen1);
        let under = rest.push(Frame { block: starts[1], leave: false });
        let frames = under.push(Frame { block: starts[0], leave: false });
        assert(frames.drop_last() =~= under);
        assert(under.drop_last() =~= rest);
        assert(starts.skip(1).skip(1) =~= Seq::<u64>::empty());
        assert(starts.skip(1)[0] == starts[1]);
        assert(v.visit_all(starts.skip(1), seen1) =~= second);
        assert(v.visit_all(starts, seen) =~= first + second);
        lemma_union_of_two(seen, first, second);
        assert(finish(v, frames, seen) =~= (first + second) + finish(
            v,
            rest,
            seen.union((first + second).to_set()),
        ));
    }
}

proof fn lemma_union_of_two(seen: Set<u64>, first: Seq<u64>, second: Seq<u64>)
    ensures
        seen.union(first.to_set()).union(second.to_set()) == seen.union((first + second).to_set()),
{
    let both = first + second;
    assert forall|x: u64| seen.union(both.to_set()).contains(x) implies seen.union(
        first.to_set(),
    ).union(second.to_set()).contains(x) by {
        if both.to_set().contains(x) {
            let i = both.index_of(x);
            if i < first.len() {
                assert(first[i] == x);
            } else {
                assert(second[i - first.len()] == x);
            }
        }
    }
    assert forall|x: u64|
        seen.union(first.to_set()).union(second.to_set()).contains(x) implies seen.union(
        both.to_set(),
    ).contains(x) by {
        if first.to_set().contains(x) {
            let i = first.index_of(x);
            assert(both[i] == x);
        } else if second.to_set().contains(x) {
            let i = second.index_of(x);
            assert(both[first.len() + i] == x);
        }
    }
    assert(seen.union(first.to_set()).union(second.to_set()) =~= seen.union(both.to_set()));
}

/// The frames that the walk pushes for the targets of a block.
spec fn pushed(base: Seq<Frame>, starts: Seq<u64>, seen: Set<u64>) -> Seq<Frame> {
    let under = if starts.len() < 2 || seen.contains(starts[1]) {
        base
    } else {
        base.push(Frame { block: starts[1], leave: false })
    };
    if starts.len() < 1 || seen.contains(starts[0]) {
        under
    } else {
        under.push(Frame { block: starts[0], leave: false })
    }
}

/// Leaving out the targets that have been seen changes nothing.
proof fn lemma_pushed(v: IrView, base: Seq<Frame>, starts: Seq<u64>, seen: Set<u64>)
    requires
        starts.len() <= 2,
    ensures
        finish(v, pushed(base, starts, seen), seen) == v.visit_all(starts, seen) + finish(
            v,
            base,
            seen.union(v.visit_all(starts, seen).to_set()),
        ),
{
    lemma_enter_all(v, base, starts, seen);
    if starts.len() == 0 {
        let none = v.visit_all(starts, seen);
        assert(none =~= Seq::<u64>::empty());
        assert(seen.union(none.to_set()) =~= seen);
        assert(none + finish(v, base, seen) =~= finish(v, base, seen));
    } else if starts.len() == 1 {
        if seen.contains(starts[0]) {
            lemma_enter_seen(v, base, starts[0], seen);
        }
    } else {
        let second = Frame { block: starts[1], leave: false };
        let first = Frame { block: starts[0], leave: false };
        if seen.contains(starts[0]) {
            lemma_enter_seen(v, base.push(second), starts[0], seen);
            if seen.contains(starts[1]) {
                lemma_enter_seen(v, base, starts[1], seen);
            }
        } else if seen.contains(starts[1]) {
            let found = v.visit(starts[0], seen);
            lemma_enter_seen(v, base, starts[1], seen.union(found.to_set()));
            assert(base.push(second).push(first).drop_last() =~= base.push(second));
            assert(base.push(first).drop_last() =~= base);
        }
    }
}

/// The targets of a block are blocks of the function, and there are at most
/// two.
proof fn lemma_targets(v: IrView, b: u64)
    requires
        v.wf(),
        b < v.blocks.len(),
    ensures
        v.targets(b).len() <= 2,
        forall|i: int| 0 <= i < v.targets(b).len() ==> #[trigger] v.targets(b)[i] < v.blocks.len(),
{
    lemma_wf_block(v, Block { index: b });
}

/// A list of block numbers as handles.
pub open spec fn handles(numbers: Seq<u64>) -> Seq<Block> {
    Seq::new(numbers.len(), |i: int| Block { index: numbers[i] })
}

impl ExecIrBuilder {
    /// The blocks that can be reached, in reverse postorder: a block comes
    /// before the blocks it branches to, except along edges back into a
    /// loop.
    #[verifier::spinoff_prover]
    #[verifier::rlimit(60)]
    pub fn topo_sort(&self) -> (r: Vec<Block>)
        requires
            self.wf(),
        ensures
            r@ == handles(self@.compile_order()),
    {
        let ghost v = self@;
        proof {
            lemma_wf(v);
        }
        let n: usize = self.blocks.len();
        let mut seen: Vec<bool> = Vec::new();
        let mut i: usize = 0;
        while i < n
            invariant
                i <= n,
                seen@.len() == i,
                forall|k: int| 0 <= k < i ==> !seen@[k],
            decreases n - i,
        {
            seen.push(false);
            i = i + 1;
        }
        assert(marked(seen@) =~= Set::<u64>::empty());
        let mut postorder: Vec<Block> = Vec::new();
        let ghost mut post: Seq<u64> = Seq::empty();
        let mut stack = InlineList::new();
        let ghost mut frames: Seq<Frame> = Seq::empty();
        push_frame(&mut stack, Ghost(frames), 0, false);
        proof {
            frames = frames.push(Frame { block: 0, leave: false });
            reveal_with_fuel(finish, 2);
            assert(frames.drop_last() =~= Seq::<Frame>::empty());
            assert(post + finish(v, frames, marked(seen@)) =~= v.visit(0, Set::empty()));
        }
        let mut running: bool = true;
        while running
            invariant
                v == self@,
                v.wf(),
                n == self.blocks.len(),
                n == v.blocks.len(),
                seen@.len() == n,
                holds_frames(stack@, frames),
                forall|k: int| 0 <= k < frames.len() ==> (#[trigger] frames[k]).block < n,
                postorder@ == handles(post),
                post + finish(v, frames, marked(seen@)) == v.visit(0, Set::empty()),
                !running ==> frames.len() == 0,
            decreases unseen(n as nat, marked(seen@)), frames.len(), (if running {
                1int
            } else {
                0int
            }),
        {
            let ghost rest = frames.drop_last();
            let kind: Option<u64> = stack.pop();
            let block: Option<u64> = stack.pop();
            match (kind, block) {
                (Some(kind), Some(b)) => {
                    let ghost top = frames.last();
                    assert(frames[frames.len() - 1] == top);
                    assert(frames =~= rest.push(top));
                    assert(holds_frames(stack@, rest));
                    assert(b < n);
                    if kind == 1 {
                        postorder.push(Block { index: b });
                        proof {
                            assert(post.push(b) + finish(v, rest, marked(seen@)) =~= post + finish(
                                v,
                                frames,
                                marked(seen@),
                            ));
                            post = post.push(b);
                            frames = rest;
                            assert(postorder@ =~= handles(post));
                        }
                    } else if seen[b as usize] {
                        proof {
                            lemma_enter_seen(v, rest, b, marked(seen@));
                            frames = rest;
                        }
                    } else {
                        let ghost before = marked(seen@);
                        seen.set(b as usize, true);
                        let ghost after = marked(seen@);
                        let targets: ArrayVec<u64, 2> = self.successors(Block { index: b });
                        let starts = pair_as_slice(&targets);
                        proof {
                            assert(after =~= before.insert(b));
                            lemma_targets(v, b);
                            lemma_enter(v, rest, b, before);
                            lemma_unseen_insert(n as nat, before, b);
                            frames = rest;
                        }
                        push_frame(&mut stack, Ghost(frames), b, true);
                        proof {
                            frames = frames.push(Frame { block: b, leave: true });
                        }
                        let ghost base = frames;
                        if starts.len() > 1 && !seen[starts[1] as usize] {
                            push_frame(&mut stack, Ghost(frames), starts[1], false);
                            proof {
                                frames = frames.push(Frame { block: starts[1], leave: false });
                            }
                        }
                        if starts.len() > 0 && !seen[starts[0] as usize] {
                            push_frame(&mut stack, Ghost(frames), starts[0], false);
                            proof {
                                frames = frames.push(Frame { block: starts[0], leave: false });
                            }
                        }
                        proof {
                            assert(starts@ == v.targets(b));
                            assert(frames == pushed(base, starts@, after));
                            lemma_pushed(v, base, starts@, after);
                            assert(base.drop_last() =~= rest);
                            let all = v.visit_all(starts@, after);
                            assert(finish(v, base, after.union(all.to_set())) == seq![b] + finish(
                                v,
                                rest,
                                after.union(all.to_set()),
                            ));
                        }
                    }
                },
                _ => {
                    running = false;
                },
            }
        }
        proof {
            assert(post =~= v.visit(0, Set::empty()));
        }
        let mut r: Vec<Block> = Vec::new();
        let m: usize = postorder.len();
        let mut k: usize = 0;
        while k < m
            invariant
                m == postorder.len(),
                k <= m,
                r@.len() == k,
                forall|j: int| 0 <= j < k ==> r@[j] == postorder@[m - 1 - j],
            decreases m - k,
        {
            r.push(postorder[m - 1 - k]);
            k = k + 1;
        }
        assert(r@ =~= handles(v.compile_order()));
        r
    }
}

} // verus!
