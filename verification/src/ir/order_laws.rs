//! What the compile order promises.
use vstd::prelude::*;
use crate::ir::model::{lemma_wf, lemma_wf_block, IrView};
use crate::ir::order::{lemma_unseen_grows, lemma_unseen_insert, unseen};
use crate::ir::types::Block;

verus! {

/// The blocks that the blocks of a walk branch to have all been seen.
spec fn closed_walk(v: IrView, post: Seq<u64>, seen: Set<u64>) -> bool {
    forall|i: int, t: u64|
        0 <= i < post.len() && #[trigger] v.targets(post[i]).contains(t) ==> seen.contains(t)
            || post.contains(t)
}

/// A block is finished after the blocks it branches to, unless it can be
/// reached from them.
spec fn ordered_walk(v: IrView, post: Seq<u64>, seen: Set<u64>) -> bool {
    forall|i: int, t: u64|
        0 <= i < post.len() && #[trigger] v.targets(post[i]).contains(t) ==> seen.contains(t)
            || v.reaches(t, post[i]) || post.take(i).contains(t)
}

spec fn fresh_walk(v: IrView, post: Seq<u64>, seen: Set<u64>) -> bool {
    &&& post.no_duplicates()
    &&& forall|i: int|
        0 <= i < post.len() ==> #[trigger] post[i] < v.blocks.len() && !seen.contains(post[i])
}

proof fn lemma_reaches_through(v: IrView, a: u64, t: u64, b: u64)
    requires
        a < v.blocks.len(),
        v.targets(a).contains(t),
        v.reaches(t, b),
    ensures
        v.reaches(a, b),
{
    let path = choose|path: Seq<u64>|
        #[trigger] v.is_path(path) && path[0] == t && path.last() == b;
    let longer = seq![a] + path;
    assert forall|i: int| 0 <= i < longer.len() - 1 implies #[trigger] v.branches(longer, i) by {
        if i > 0 {
            assert(v.branches(path, i - 1));
            assert(longer[i] == path[i - 1]);
            assert(longer[i + 1] == path[i]);
        }
    }
    assert(v.is_path(longer));
}

proof fn lemma_reaches_self(v: IrView, a: u64)
    ensures
        v.reaches(a, a),
{
    assert(v.is_path(seq![a]));
}

proof fn lemma_target_in_range(v: IrView, b: u64, t: u64)
    requires
        v.wf(),
        b < v.blocks.len(),
        v.targets(b).contains(t),
    ensures
        t < v.blocks.len(),
{
    lemma_wf_block(v, Block { index: b });
}

proof fn lemma_visit(v: IrView, b: u64, seen: Set<u64>)
    requires
        v.wf(),
        b < v.blocks.len(),
    ensures
        fresh_walk(v, v.visit(b, seen), seen),
        closed_walk(v, v.visit(b, seen), seen),
        ordered_walk(v, v.visit(b, seen), seen),
        seen.contains(b) || v.visit(b, seen).contains(b),
        !seen.contains(b) ==> v.visit(b, seen).len() > 0 && v.visit(b, seen).last() == b,
        forall|i: int|
            0 <= i < v.visit(b, seen).len() ==> v.reaches(b, #[trigger] v.visit(b, seen)[i]),
    decreases unseen(v.blocks.len(), seen), 0nat,
{
    lemma_wf(v);
    if !seen.contains(b) {
        let starts = v.targets(b);
        let inner = seen.insert(b);
        let all = v.visit_all(starts, inner);
        let post = v.visit(b, seen);
        assert(post == all.push(b));
        lemma_unseen_insert(v.blocks.len(), seen, b);
        assert forall|k: int| 0 <= k < starts.len() implies #[trigger] starts[k]
            < v.blocks.len() by {
            assert(v.targets(b).contains(starts[k]));
            lemma_target_in_range(v, b, starts[k]);
        }
        lemma_visit_all(v, starts, inner);
        assert(post.last() == b);
        assert(post[all.len() as int] == b);
        lemma_reaches_self(v, b);
        assert forall|i: int| 0 <= i < post.len() implies v.reaches(b, #[trigger] post[i]) by {
            if i < all.len() {
                assert(all[i] == post[i]);
                let k = choose|k: int|
                    0 <= k < starts.len() && v.reaches(#[trigger] starts[k], all[i]);
                assert(v.targets(b).contains(starts[k]));
                lemma_reaches_through(v, b, starts[k], all[i]);
            }
        }
        assert forall|i: int| 0 <= i < post.len() implies #[trigger] post[i] < v.blocks.len()
            && !seen.contains(post[i]) by {
            if i < all.len() {
                assert(all[i] == post[i]);
            }
        }
        assert(post.no_duplicates()) by {
            assert forall|i: int, j: int| 0 <= i < post.len() && 0 <= j < post.len() && i
                != j implies post[i] != post[j] by {
                if i < all.len() {
                    assert(!inner.contains(all[i]));
                }
                if j < all.len() {
                    assert(!inner.contains(all[j]));
                }
            }
        }
        assert forall|t: u64| all.contains(t) implies post.contains(t) by {
            let i = all.index_of(t);
            assert(post[i] == t);
        }
        assert forall|i: int, t: u64|
            0 <= i < post.len() && #[trigger] v.targets(post[i]).contains(t) implies seen.contains(
            t,
        ) || post.contains(t) by {
            if i < all.len() {
                assert(v.targets(all[i]).contains(t));
                if t == b {
                    assert(post[all.len() as int] == t);
                }
            } else {
                let k = starts.index_of(t);
                assert(starts[k] == t);
                if t == b {
                    assert(post[all.len() as int] == t);
                }
            }
        }
        assert forall|i: int, t: u64|
            0 <= i < post.len() && #[trigger] v.targets(post[i]).contains(t) implies seen.contains(
            t,
        ) || v.reaches(t, post[i]) || post.take(i).contains(t) by {
            if i < all.len() {
                assert(v.targets(all[i]).contains(t));
                assert(post.take(i) =~= all.take(i));
                if t == b {
                    assert(v.reaches(b, post[i]));
                }
            } else {
                let k = starts.index_of(t);
                assert(starts[k] == t);
                assert(post.take(i) =~= all);
            }
        }
    } else {
        assert(v.visit(b, seen) =~= Seq::<u64>::empty());
    }
}

proof fn lemma_visit_all(v: IrView, starts: Seq<u64>, seen: Set<u64>)
    requires
        v.wf(),
        forall|k: int| 0 <= k < starts.len() ==> #[trigger] starts[k] < v.blocks.len(),
    ensures
        fresh_walk(v, v.visit_all(starts, seen), seen),
        closed_walk(v, v.visit_all(starts, seen), seen),
        ordered_walk(v, v.visit_all(starts, seen), seen),
        forall|k: int|
            0 <= k < starts.len() ==> seen.contains(#[trigger] starts[k]) || v.visit_all(
                starts,
                seen,
            ).contains(starts[k]),
        forall|i: int|
            0 <= i < v.visit_all(starts, seen).len() ==> exists|k: int|
                0 <= k < starts.len() && v.reaches(
                    #[trigger] starts[k],
                    #[trigger] v.visit_all(starts, seen)[i],
                ),
    decreases unseen(v.blocks.len(), seen), starts.len(),
{
    if starts.len() == 0 {
        assert(v.visit_all(starts, seen) =~= Seq::<u64>::empty());
    } else {
        let first = v.visit(starts[0], seen);
        let rest = starts.skip(1);
        let seen1 = seen.union(first.to_set());
        let more = v.visit_all(rest, seen1);
        let post = v.visit_all(starts, seen);
        assert(post == first + more);
        lemma_visit(v, starts[0], seen);
        lemma_unseen_grows(v.blocks.len(), seen, seen1);
        assert forall|k: int| 0 <= k < rest.len() implies #[trigger] rest[k] < v.blocks.len() by {
            assert(rest[k] == starts[k + 1]);
        }
        lemma_visit_all(v, rest, seen1);
        assert forall|t: u64| first.contains(t) implies post.contains(t) by {
            let i = first.index_of(t);
            assert(post[i] == t);
        }
        assert forall|t: u64| more.contains(t) implies post.contains(t) by {
            let i = more.index_of(t);
            assert(post[first.len() + i] == t);
        }
        assert forall|k: int| 0 <= k < starts.len() implies seen.contains(#[trigger] starts[k])
            || post.contains(starts[k]) by {
            if k > 0 {
                assert(rest[k - 1] == starts[k]);
                if seen1.contains(starts[k]) && !seen.contains(starts[k]) {
                    assert(first.contains(starts[k]));
                }
            }
        }
        assert forall|i: int| 0 <= i < post.len() implies exists|k: int|
            0 <= k < starts.len() && v.reaches(#[trigger] starts[k], #[trigger] post[i]) by {
            if i < first.len() {
                assert(first[i] == post[i]);
                assert(v.reaches(starts[0], post[i]));
            } else {
                assert(more[i - first.len()] == post[i]);
                let k = choose|k: int|
                    0 <= k < rest.len() && v.reaches(
                        #[trigger] rest[k],
                        more[i - first.len()],
                    );
                assert(starts[k + 1] == rest[k]);
                assert(v.reaches(starts[k + 1], post[i]));
            }
        }
        assert forall|i: int| 0 <= i < post.len() implies #[trigger] post[i] < v.blocks.len()
            && !seen.contains(post[i]) by {
            if i < first.len() {
                assert(first[i] == post[i]);
            } else {
                assert(more[i - first.len()] == post[i]);
            }
        }
        assert(post.no_duplicates()) by {
            assert forall|i: int, j: int| 0 <= i < post.len() && 0 <= j < post.len() && i
                != j implies post[i] != post[j] by {
                if i < first.len() && j >= first.len() {
                    assert(more[j - first.len()] == post[j]);
                    assert(first.contains(post[i]));
                } else if i >= first.len() && j < first.len() {
                    assert(more[i - first.len()] == post[i]);
                    assert(first.contains(post[j]));
                } else if i >= first.len() {
                    assert(more[i - first.len()] == post[i]);
                    assert(more[j - first.len()] == post[j]);
                }
            }
        }
        assert forall|i: int, t: u64|
            0 <= i < post.len() && #[trigger] v.targets(post[i]).contains(t) implies seen.contains(
            t,
        ) || post.contains(t) by {
            if i < first.len() {
                assert(v.targets(first[i]).contains(t));
            } else {
                assert(v.targets(more[i - first.len()]).contains(t));
                if seen1.contains(t) && !seen.contains(t) {
                    assert(first.contains(t));
                }
            }
        }
        assert forall|i: int, t: u64|
            0 <= i < post.len() && #[trigger] v.targets(post[i]).contains(t) implies seen.contains(
            t,
        ) || v.reaches(t, post[i]) || post.take(i).contains(t) by {
            if i < first.len() {
                assert(v.targets(first[i]).contains(t));
                assert(post.take(i) =~= first.take(i));
            } else {
                let k = i - first.len();
                assert(v.targets(more[k]).contains(t));
                assert(post.take(i) =~= first + more.take(k));
                if more.take(k).contains(t) {
                    let j = more.take(k).index_of(t);
                    assert(post.take(i)[first.len() + j] == t);
                } else if first.contains(t) {
                    let j = first.index_of(t);
                    assert(post.take(i)[j] == t);
                }
            }
        }
    }
}

proof fn lemma_closed_reach(v: IrView, post: Seq<u64>, path: Seq<u64>, i: int)
    requires
        closed_walk(v, post, Set::empty()),
        v.is_path(path),
        post.contains(path[0]),
        0 <= i < path.len(),
    ensures
        post.contains(path[i]),
    decreases i,
{
    if i > 0 {
        lemma_closed_reach(v, post, path, i - 1);
        assert(v.branches(path, i - 1));
        let k = post.index_of(path[i - 1]);
        assert(v.targets(post[k]).contains(path[i]));
    }
}

/// The compile order starts with the entry block, and holds every block that
/// can be reached from it, once, and no other.
pub proof fn law_order_is_complete(v: IrView)
    requires
        v.wf(),
    ensures
        v.compile_order().len() > 0,
        v.compile_order()[0] == 0,
        v.compile_order().no_duplicates(),
        forall|b: u64| #[trigger] v.compile_order().contains(b) <==> v.reaches(0, b),
        forall|b: u64| #[trigger] v.compile_order().contains(b) ==> b < v.blocks.len(),
{
    lemma_wf(v);
    let post = v.visit(0, Set::empty());
    let order = v.compile_order();
    lemma_visit(v, 0, Set::empty());
    assert(order[0] == post.last());
    assert forall|b: u64| #[trigger] order.contains(b) implies b < v.blocks.len() by {
        let i = order.index_of(b);
        assert(post[post.len() - 1 - i] == b);
    }
    assert forall|b: u64| #[trigger] order.contains(b) <==> v.reaches(0, b) by {
        if order.contains(b) {
            let i = order.index_of(b);
            assert(post[post.len() - 1 - i] == b);
        }
        if v.reaches(0, b) {
            let path = choose|path: Seq<u64>|
                #[trigger] v.is_path(path) && path[0] == 0 && path.last() == b;
            lemma_closed_reach(v, post, path, path.len() - 1);
            let i = post.index_of(b);
            assert(order[post.len() - 1 - i] == b);
        }
    }
}

/// The compile order holds whatever its blocks branch to.
pub proof fn lemma_order_closed(v: IrView, b: u64, t: u64)
    requires
        v.wf(),
        v.compile_order().contains(b),
        v.targets(b).contains(t),
    ensures
        v.compile_order().contains(t),
        b < v.blocks.len(),
{
    lemma_wf(v);
    let post = v.visit(0, Set::empty());
    let order = v.compile_order();
    lemma_visit(v, 0, Set::empty());
    let i = order.index_of(b);
    assert(post[post.len() - 1 - i] == b);
    assert(v.targets(post[post.len() - 1 - i]).contains(t));
    let j = post.index_of(t);
    assert(order[post.len() - 1 - j] == t);
}

/// In the compile order a block stands before every block it branches to,
/// except where the branch closes a loop.
pub proof fn law_order_follows_branches(v: IrView, i: int, t: u64)
    requires
        v.wf(),
        0 <= i < v.compile_order().len(),
        v.targets(v.compile_order()[i]).contains(t),
    ensures
        v.reaches(t, v.compile_order()[i]) || exists|j: int|
            i < j < v.compile_order().len() && v.compile_order()[j] == t,
{
    lemma_wf(v);
    let post = v.visit(0, Set::empty());
    let order = v.compile_order();
    lemma_visit(v, 0, Set::empty());
    let at = post.len() - 1 - i;
    assert(post[at] == order[i]);
    assert(v.targets(post[at]).contains(t));
    if !v.reaches(t, post[at]) {
        let k = post.take(at).index_of(t);
        assert(post[k] == t);
        assert(order[post.len() - 1 - k] == t);
    }
}

} // verus!
