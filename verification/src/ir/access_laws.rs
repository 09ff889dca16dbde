//! What an emitted access to guest memory does when it runs.
use vstd::prelude::*;
use crate::exec_context::MemOp;
use crate::ffi_support::StrexStatus;
use crate::ir::compose::{constant, edge, equals};
use crate::ir::execution::{
    bound, decided, is_set, lemma_comes_next, lemma_comes_self, Flow, Host, HostMem,
};
use crate::ir::layout::{
    spec_mem_op_code, HaltReason, FAULT_MEM_OP_OFFSET, FAULT_PENDING_OFFSET, FAULT_VADDR_OFFSET,
    PAGE_NUMBER_SHIFT, PAGE_OFFSET_MASK, TAG_ALL, TAG_MUST_DIRTY, TAG_READ, TAG_WRITE,
    TLB_ENTRY_SIZE, TLB_IDENT_OFFSET, TLB_MASK, TLB_PAGE_FLAGS_OFFSET, TLB_PAGE_NUMBER_OFFSET,
    TLB_TAGGED_PTR_OFFSET,
};
use crate::ir::model::{IrView, StmtView};
use crate::ir::semantics::{shifted, Machine, Val};
use crate::ir::types::{
    spec_load_callback, spec_store_callback, AliasRegion, Arg, BitwiseOp, Block, BlockView,
    CallArgs, CallbackSignature, HostCallback, IntCmp, IntWidth, JumpView, LoadType, SSAValue,
    ShiftOp, Stmt, StmtKind, TerminatorView, TypeFull,
};
use crate::ir::vm_access::{free_load, host_args, scratch_load, store_context, VmAccessKind};
use crate::memops::{le_value, to_le, window};
use crate::page_store::splice;

verus! {

/// What stands in `a` stands in `b`, at the same place; a block that has
/// ended in `a` is the same in `b`.
#[verifier::opaque]
pub open spec fn keeps(a: IrView, b: IrView) -> bool {
    &&& a.types.is_prefix_of(b.types)
    &&& a.stmts.is_prefix_of(b.stmts)
    &&& a.calls.is_prefix_of(b.calls)
    &&& a.blocks.len() <= b.blocks.len()
    &&& forall|i: int|
        0 <= i < a.blocks.len() ==> block_kept(a.blocks[i], #[trigger] b.blocks[i])
}

pub open spec fn block_kept(a: BlockView, b: BlockView) -> bool {
    &&& a.parameters == b.parameters
    &&& a.stmts.is_prefix_of(b.stmts)
    &&& a.terminated ==> b.terminated && a.stmts == b.stmts && a.terminator == b.terminator
}

/// There is a block to append to, and room for `k` more of everything.
pub open spec fn open_at(v: IrView, k: int) -> bool {
    &&& v.current.index < v.blocks.len()
    &&& !v.block(v.current).terminated
    &&& v.types.len() + k <= u64::MAX
    &&& v.stmts.len() + k <= u64::MAX
    &&& v.blocks.len() + k <= u64::MAX
    &&& v.calls.len() + k <= u64::MAX
    &&& v.slots.len() + k <= u64::MAX
}

/// A run of `w` is where `v` appends its next statement.
#[verifier::opaque]
pub open spec fn arrived(
    v: IrView,
    w: IrView,
    host: Host,
    start: Flow,
    m: Machine,
    mem: HostMem,
) -> bool {
    w.comes_to(host, start, here(v, m, mem))
}

/// The place where `v` appends its next statement.
pub open spec fn here(v: IrView, m: Machine, mem: HostMem) -> Flow {
    Flow::At {
        block: v.current.index as int,
        done: v.block(v.current).stmts.len() as int,
        m,
        mem,
    }
}

proof fn lemma_keeps_self(v: IrView)
    ensures
        keeps(v, v),
{
    reveal(keeps);
}

proof fn lemma_keeps_on(a: IrView, b: IrView, c: IrView)
    requires
        keeps(a, b),
        keeps(b, c),
    ensures
        keeps(a, c),
{
    reveal(keeps);
    assert forall|i: int| 0 <= i < a.blocks.len() implies block_kept(
        a.blocks[i],
        #[trigger] c.blocks[i],
    ) by {
        assert(block_kept(a.blocks[i], b.blocks[i]));
        assert(block_kept(b.blocks[i], c.blocks[i]));
    }
}

/// Two blocks with the same code.
pub open spec fn same_code(a: BlockView, b: BlockView) -> bool {
    a == (BlockView { is_cold: a.is_cold, ..b })
}

/// Every block of `a` but `c` has the same code in `b`.
pub open spec fn rest_same(a: IrView, b: IrView, c: Block) -> bool {
    &&& a.blocks.len() <= b.blocks.len()
    &&& forall|i: int|
        0 <= i < a.blocks.len() && i != c.index ==> same_code(#[trigger] b.blocks[i], a.blocks[i])
}

/// What appending a statement changes.
proof fn lemma_emit_keeps(v: IrView, rvalue: StmtKind, k: int)
    requires
        open_at(v, k),
        k >= 2,
        v.output_types(rvalue).len() <= 2,
    ensures
        keeps(v, v.emit(rvalue)),
        open_at(v.emit(rvalue), k - 2),
        v.emit(rvalue).current == v.current,
        v.emit(rvalue).types == v.types + v.output_types(rvalue),
        v.emit(rvalue).blocks.len() == v.blocks.len(),
        v.emit(rvalue).calls == v.calls,
        v.emit(rvalue).slots == v.slots,
        v.emit(rvalue).scratch_space == v.scratch_space,
        rest_same(v, v.emit(rvalue), v.current),
        v.emit(rvalue).block(v.current) == (BlockView {
            stmts: v.block(v.current).stmts.push(Stmt { index: v.stmts.len() as u64 }),
            ..v.block(v.current)
        }),
        v.emit(rvalue).stmts.last() == (StmtView {
            outputs: Seq::new(
                v.output_types(rvalue).len(),
                |i: int| (v.types.len() + i) as u64,
            ),
            rvalue,
        }),
        v.emit(rvalue).stmts.len() == v.stmts.len() + 1,
{
    reveal(keeps);
    reveal(IrView::emit);
    let w = v.emit(rvalue);
    assert forall|i: int| 0 <= i < v.blocks.len() implies block_kept(
        v.blocks[i],
        #[trigger] w.blocks[i],
    ) by {}
}

/// An appended statement runs when the run is where it was appended.
proof fn lemma_runs(
    v: IrView,
    rvalue: StmtKind,
    k: int,
    w: IrView,
    host: Host,
    start: Flow,
    m: Machine,
    mem: HostMem,
) -> (r: (Machine, HostMem))
    requires
        open_at(v, k),
        k >= 2,
        v.output_types(rvalue).len() <= 2,
        keeps(v.emit(rvalue), w),
        arrived(v, w, host, start, m, mem),
        w.exec(
            host,
            StmtView {
                outputs: Seq::new(
                    v.output_types(rvalue).len(),
                    |i: int| (v.types.len() + i) as u64,
                ),
                rvalue,
            },
            m,
            mem,
        ) is Some,
    ensures
        w.exec(
            host,
            StmtView {
                outputs: Seq::new(
                    v.output_types(rvalue).len(),
                    |i: int| (v.types.len() + i) as u64,
                ),
                rvalue,
            },
            m,
            mem,
        ) == Some(r),
        arrived(v.emit(rvalue), w, host, start, r.0, r.1),
{
    reveal(arrived);
    lemma_emit_keeps(v, rvalue, k);
    let e = v.emit(rvalue);
    let b = v.current.index as int;
    let done = v.block(v.current).stmts.len() as int;
    assert(w.blocks.len() >= e.blocks.len() && block_kept(e.blocks[b], w.blocks[b])) by {
        reveal(keeps);
    }
    assert(e.stmts.is_prefix_of(w.stmts)) by {
        reveal(keeps);
    }
    assert(w.blocks[b].stmts[done] == e.blocks[b].stmts[done]);
    assert(w.stmts[v.stmts.len() as int] == e.stmts[v.stmts.len() as int]);
    lemma_comes_next(w, host, start, here(v, m, mem));
    w.exec(host, e.stmts.last(), m, mem)->0
}

/// The statement computes a value and does nothing else.
pub open spec fn is_plain(rvalue: StmtKind) -> bool {
    !(rvalue is StoreHost || rvalue is VMStoreRaw || rvalue is SetPageDirtyFlag
        || rvalue is HostCallback || rvalue is OverflowingBinOp || rvalue is Safepoint)
}

/// An appended statement that computes a value.
proof fn lemma_value(
    v: IrView,
    rvalue: StmtKind,
    k: int,
    w: IrView,
    host: Host,
    start: Flow,
    m: Machine,
    mem: HostMem,
) -> (r: Machine)
    requires
        open_at(v, k),
        k >= 2,
        is_plain(rvalue),
        v.output_types(rvalue).len() == 1,
        keeps(v.emit(rvalue), w),
        arrived(v, w, host, start, m, mem),
        w.eval_host(rvalue, m, mem) is Some,
    ensures
        r.env == m.env.insert(v.next().index, w.eval_host(rvalue, m, mem)->0),
        r.state == m.state,
        arrived(v.emit(rvalue), w, host, start, r, mem),
{
    let outputs = Seq::new(v.output_types(rvalue).len(), |i: int| (v.types.len() + i) as u64);
    assert(outputs[0] == v.next().index);
    lemma_runs(v, rvalue, k, w, host, start, m, mem).0
}

/// What branching on a condition changes.
proof fn lemma_branch_keeps(v: IrView, cond: SSAValue, expected: bool, fail: Block, k: int)
    requires
        open_at(v, k),
        k >= 2,
        fail.index < v.blocks.len(),
        fail != v.current,
    ensures
        ({
            let (e, success) = v.assert_or_jmp_to(cond, expected, fail);
            &&& keeps(v, e)
            &&& open_at(e, k - 2)
            &&& success.index == v.blocks.len()
            &&& e.current == success
            &&& e.blocks.len() == v.blocks.len() + 1
            &&& e.types == v.types
            &&& e.stmts == v.stmts
            &&& e.calls == v.calls
            &&& e.slots == v.slots
            &&& e.scratch_space == v.scratch_space
            &&& e.block(success) == BlockView::blank()
            &&& rest_same(v, e, v.current)
            &&& e.block(v.current).terminated
            &&& e.block(v.current).stmts == v.block(v.current).stmts
            &&& e.block(v.current).terminator == (if expected {
                TerminatorView::BrZ(cond, edge(fail), edge(success))
            } else {
                TerminatorView::BrZ(cond, edge(success), edge(fail))
            })
        }),
{
    reveal(keeps);
    let (e, success) = v.assert_or_jmp_to(cond, expected, fail);
    assert(edge(fail).target != edge(success).target);
    assert forall|i: int| 0 <= i < v.blocks.len() implies block_kept(
        v.blocks[i],
        #[trigger] e.blocks[i],
    ) by {}
}

/// A branch goes on in the new block if the condition is as expected, and to
/// `fail` if it is not.
proof fn lemma_branch(
    v: IrView,
    cond: SSAValue,
    expected: bool,
    fail: Block,
    k: int,
    w: IrView,
    host: Host,
    start: Flow,
    m: Machine,
    mem: HostMem,
)
    requires
        open_at(v, k),
        k >= 2,
        fail.index < v.blocks.len(),
        fail != v.current,
        v.block(fail).parameters.len() == 0,
        keeps(v.assert_or_jmp_to(cond, expected, fail).0, w),
        arrived(v, w, host, start, m, mem),
        decided(m, cond),
    ensures
        is_set(m, cond) == expected ==> arrived(
            v.assert_or_jmp_to(cond, expected, fail).0,
            w,
            host,
            start,
            m,
            mem,
        ),
        is_set(m, cond) != expected ==> w.comes_to(host, start, entering(fail, m, mem)),
{
    reveal(arrived);
    lemma_branch_keeps(v, cond, expected, fail, k);
    let (e, success) = v.assert_or_jmp_to(cond, expected, fail);
    let b = v.current.index as int;
    assert(block_kept(e.blocks[b], w.blocks[b])) by {
        reveal(keeps);
    }
    assert(block_kept(e.blocks[success.index as int], w.blocks[success.index as int])) by {
        reveal(keeps);
    }
    assert(block_kept(e.blocks[fail.index as int], w.blocks[fail.index as int])) by {
        reveal(keeps);
    }
    assert(same_code(e.blocks[fail.index as int], v.blocks[fail.index as int]));
    lemma_comes_next(w, host, start, here(v, m, mem));
    assert(bound(m.env, w.block(fail).parameters, Seq::empty(), 0) == m.env);
}

/// The beginning of a block.
pub open spec fn entering(block: Block, m: Machine, mem: HostMem) -> Flow {
    Flow::At { block: block.index as int, done: 0, m, mem }
}

/// What a new block that returns a halt reason changes.
proof fn lemma_halt_keeps(v: IrView, reason: HaltReason, k: int)
    requires
        open_at(v, k),
        k >= 4,
    ensures
        ({
            let (e, fail) = v.halt_block(reason);
            &&& keeps(v, e)
            &&& open_at(e, k - 4)
            &&& fail.index == v.blocks.len()
            &&& e.current == v.current
            &&& e.blocks.len() == v.blocks.len() + 1
            &&& e.types == v.types.push(TypeFull::Int(IntWidth::W32))
            &&& e.calls == v.calls
            &&& e.slots == v.slots
            &&& e.scratch_space == v.scratch_space
            &&& rest_same(v, e, fail)
            &&& e.block(fail).parameters.len() == 0
            &&& e.block(fail).terminated
            &&& e.block(fail).stmts == seq![Stmt { index: v.stmts.len() as u64 }]
            &&& e.block(fail).terminator == TerminatorView::ReturnCode(v.next())
            &&& e.stmts == v.stmts.push(
                StmtView {
                    outputs: seq![v.types.len() as u64],
                    rvalue: constant(IntWidth::W32, reason.code as u64),
                },
            )
        }),
{
    reveal(keeps);
    reveal(IrView::emit);
    let (e, fail) = v.halt_block(reason);
    let (v1, _) = v.create_block();
    let rvalue = constant(IntWidth::W32, reason.code as u64);
    assert(v1.types + v1.output_types(rvalue) =~= v.types.push(TypeFull::Int(IntWidth::W32)));
    assert(Seq::new(1, |i: int| (v.types.len() + i) as u64) =~= seq![v.types.len() as u64]);
    assert(e.block(fail).stmts =~= seq![Stmt { index: v.stmts.len() as u64 }]);
    assert forall|i: int| 0 <= i < v.blocks.len() implies block_kept(
        v.blocks[i],
        #[trigger] e.blocks[i],
    ) by {}
}

/// Running the block that returns a halt reason.
proof fn lemma_halt_runs(
    v: IrView,
    reason: HaltReason,
    k: int,
    w: IrView,
    host: Host,
    start: Flow,
    m: Machine,
    mem: HostMem,
) -> (r: Machine)
    requires
        open_at(v, k),
        k >= 4,
        keeps(v.halt_block(reason).0, w),
        w.comes_to(host, start, entering(v.halt_block(reason).1, m, mem)),
    ensures
        kept(v, m, r),
        w.comes_to(host, start, Flow::Returned { code: reason.code as u64, m: r, mem }),
{
    lemma_halt_keeps(v, reason, k);
    let (e, fail) = v.halt_block(reason);
    let b = fail.index as int;
    assert(block_kept(e.blocks[b], w.blocks[b]) && e.stmts.is_prefix_of(w.stmts)) by {
        reveal(keeps);
    }
    let n = v.stmts.len() as int;
    assert(w.stmts[n] == e.stmts[n]);
    let r = Machine { env: m.env.insert(v.types.len() as u64, Val::Int(reason.code as u64)), ..m };
    lemma_comes_next(w, host, start, entering(fail, m, mem));
    let second = Flow::At { block: b, done: 1, m: r, mem };
    assert(w.advance(host, entering(fail, m, mem)) == second);
    lemma_comes_next(w, host, start, second);
    r
}

/// What a run has computed before is there still.
pub open spec fn kept(v: IrView, m: Machine, r: Machine) -> bool {
    &&& r.state == m.state
    &&& forall|x: u64|
        x < v.types.len() && #[trigger] m.env.contains_key(x) ==> r.env.contains_key(x)
            && r.env[x] == m.env[x]
}

proof fn lemma_kept_on(v: IrView, e: IrView, a: Machine, b: Machine, c: Machine)
    requires
        kept(v, a, b),
        kept(e, b, c),
        v.types.len() <= e.types.len(),
    ensures
        kept(v, a, c),
{
    assert forall|x: u64| x < v.types.len() && #[trigger] a.env.contains_key(x) implies
        c.env.contains_key(x) && c.env[x] == a.env[x] by {
        assert(b.env.contains_key(x));
    }
}

/// The values that an access to guest memory reads are there.
pub open spec fn inputs(v: IrView, m: Machine, vaddr: SSAValue) -> bool {
    &&& v.types.len() >= 6
    &&& v.is_int(vaddr, IntWidth::W64)
    &&& m.has_int(vaddr)
    &&& m.has_int(Arg::Tlb.spec_value())
    &&& m.has_int(Arg::IoMMUIdentifier.spec_value())
    &&& m.has_int(Arg::ExecContext.spec_value())
    &&& m.has_int(Arg::IoMMU.spec_value())
    &&& m.number(Arg::Tlb.spec_value()) + 256 * TLB_ENTRY_SIZE <= u64::MAX
}

/// The page number that compiled code looks for.
pub open spec fn probed(vaddr: u64) -> u64 {
    shifted(ShiftOp::SignExtendShr, IntWidth::W64, vaddr, PAGE_NUMBER_SHIFT as int)
}

/// The TLB entry that compiled code looks into.
pub open spec fn entry_of(tlb: u64, vaddr: u64) -> int {
    tlb + (probed(vaddr) & TLB_MASK) * TLB_ENTRY_SIZE
}

/// The TLB entry is there.
pub open spec fn has_entry(mem: HostMem, entry: int) -> bool {
    &&& mem.cells.contains_key(entry + TLB_IDENT_OFFSET)
    &&& mem.cells.contains_key(entry + TLB_PAGE_NUMBER_OFFSET)
    &&& mem.cells.contains_key(entry + TLB_TAGGED_PTR_OFFSET)
    &&& mem.cells.contains_key(entry + TLB_PAGE_FLAGS_OFFSET)
}

/// The TLB knows the page.
pub open spec fn knows(mem: HostMem, entry: int, ident: u64, vaddr: u64) -> bool {
    &&& mem.cells[entry + TLB_IDENT_OFFSET] == ident
    &&& mem.cells[entry + TLB_PAGE_NUMBER_OFFSET] == probed(vaddr)
}

/// Looking for the page in the TLB: the run goes on with the entry if it is
/// there, and to the fallback if it is not.
#[verifier::spinoff_prover]
#[verifier::rlimit(100)]
proof fn lemma_probe(
    v: IrView,
    vaddr: SSAValue,
    fallback: Block,
    k: int,
    w: IrView,
    host: Host,
    start: Flow,
    m: Machine,
    mem: HostMem,
) -> (r: Machine)
    requires
        open_at(v, k),
        k >= 20,
        fallback.index < v.blocks.len(),
        fallback != v.current,
        v.block(fallback).parameters.len() == 0,
        keeps(v.tlb_probe(vaddr, fallback).0, w),
        arrived(v, w, host, start, m, mem),
        inputs(v, m, vaddr),
        has_entry(mem, entry_of(m.number(Arg::Tlb.spec_value()), m.number(vaddr))),
    ensures
        kept(v, m, r),
        ({
            let (e, entry) = v.tlb_probe(vaddr, fallback);
            let at = entry_of(m.number(Arg::Tlb.spec_value()), m.number(vaddr));
            if knows(mem, at, m.number(Arg::IoMMUIdentifier.spec_value()), m.number(vaddr)) {
                &&& arrived(e, w, host, start, r, mem)
                &&& r.has_int(entry)
                &&& r.number(entry) == at
            } else {
                w.comes_to(host, start, entering(fallback, r, mem))
            }
        }),
{
    let a = m.number(vaddr);
    let tlb = m.number(Arg::Tlb.spec_value());
    let shift = StmtKind::ShiftImm {
        op: ShiftOp::SignExtendShr,
        value: vaddr,
        shift: PAGE_NUMBER_SHIFT,
    };
    let (v1, page_number) = v.emit1(shift);
    lemma_emit_keeps(v, shift, k);
    let mask = StmtKind::BitwiseImm { op: BitwiseOp::And, lhs: page_number, rhs: TLB_MASK };
    let (v2, index) = v1.emit1(mask);
    lemma_emit_keeps(v1, mask, k - 2);
    let locate = StmtKind::PtrAdd {
        base_ptr: Arg::Tlb.spec_value(),
        offset: index,
        elem_size: TLB_ENTRY_SIZE,
    };
    let (v3, entry) = v2.emit1(locate);
    lemma_emit_keeps(v2, locate, k - 4);
    let read_ident = free_load(LoadType::HostPtr(AliasRegion::ReadOnly), entry, TLB_IDENT_OFFSET);
    let (v4, ident) = v3.emit1(read_ident);
    lemma_emit_keeps(v3, read_ident, k - 6);
    let same_ident = StmtKind::PtrEq(ident, Arg::IoMMUIdentifier.spec_value());
    let (v5, ident_matches) = v4.emit1(same_ident);
    lemma_emit_keeps(v4, same_ident, k - 8);
    let (v6, _) = v5.assert_or_jmp_to(ident_matches, true, fallback);
    lemma_branch_keeps(v5, ident_matches, true, fallback, k - 10);
    let read_number = free_load(LoadType::Int(IntWidth::W64), entry, TLB_PAGE_NUMBER_OFFSET);
    let (v7, found) = v6.emit1(read_number);
    lemma_emit_keeps(v6, read_number, k - 12);
    let same_number = StmtKind::IntCmp { predicate: IntCmp::Equal, lhs: page_number, rhs: found };
    let (v8, number_matches) = v7.emit1(same_number);
    lemma_emit_keeps(v7, same_number, k - 14);
    let (v9, _) = v8.assert_or_jmp_to(number_matches, true, fallback);
    lemma_branch_keeps(v8, number_matches, true, fallback, k - 16);
    lemma_keeps_on(v8, v9, w);
    lemma_keeps_on(v7, v8, w);
    lemma_keeps_on(v6, v7, w);
    lemma_keeps_on(v5, v6, w);
    lemma_keeps_on(v4, v5, w);
    lemma_keeps_on(v3, v4, w);
    lemma_keeps_on(v2, v3, w);
    lemma_keeps_on(v1, v2, w);
    assert(v.types.is_prefix_of(w.types)) by {
        lemma_keeps_on(v, v1, w);
        reveal(keeps);
    }
    assert(w.width(vaddr) == IntWidth::W64);
    let m1 = lemma_value(v, shift, k, w, host, start, m, mem);
    let m2 = lemma_value(v1, mask, k - 2, w, host, start, m1, mem);
    let n = probed(a);
    assert(m1.number(page_number) == n);
    assert(n & TLB_MASK <= 255) by {
        assert(n & 255 <= 255) by (bit_vector);
    }
    assert(m2.number(index) == n & TLB_MASK);
    let m3 = lemma_value(v2, locate, k - 4, w, host, start, m2, mem);
    let at = entry_of(tlb, a);
    assert(m3.number(entry) == at);
    let m4 = lemma_value(v3, read_ident, k - 6, w, host, start, m3, mem);
    let m5 = lemma_value(v4, same_ident, k - 8, w, host, start, m4, mem);
    assert(kept(v, m, m5));
    lemma_branch(v5, ident_matches, true, fallback, k - 10, w, host, start, m5, mem);
    if !m5.truth(ident_matches) {
        m5
    } else {
        let m6 = lemma_value(v6, read_number, k - 12, w, host, start, m5, mem);
        lemma_wrap64(mem.cells[at + TLB_PAGE_NUMBER_OFFSET]);
        let m7 = lemma_value(v7, same_number, k - 14, w, host, start, m6, mem);
        assert(kept(v, m, m7));
        lemma_branch(v8, number_matches, true, fallback, k - 16, w, host, start, m7, mem);
        m7
    }
}

proof fn lemma_wrap64(x: u64)
    ensures
        IntWidth::W64.wrap(x as int) == x,
{
    assert(IntWidth::W64.modulus() == 0x1_0000_0000_0000_0000);
}

/// What looking for a page in the TLB changes.
proof fn lemma_probe_keeps(v: IrView, vaddr: SSAValue, fallback: Block, k: int)
    requires
        open_at(v, k),
        k >= 20,
        fallback.index < v.blocks.len(),
        fallback != v.current,
    ensures
        ({
            let (e, entry) = v.tlb_probe(vaddr, fallback);
            &&& keeps(v, e)
            &&& open_at(e, k - 18)
            &&& v.blocks.len() <= e.current.index
            &&& e.blocks.len() == v.blocks.len() + 2
            &&& v.types.len() <= entry.index < e.types.len()
            &&& e.scratch_space == v.scratch_space
            &&& rest_same(v, e, v.current)
        }),
{
    let shift = StmtKind::ShiftImm {
        op: ShiftOp::SignExtendShr,
        value: vaddr,
        shift: PAGE_NUMBER_SHIFT,
    };
    let (v1, page_number) = v.emit1(shift);
    lemma_emit_keeps(v, shift, k);
    let mask = StmtKind::BitwiseImm { op: BitwiseOp::And, lhs: page_number, rhs: TLB_MASK };
    let (v2, index) = v1.emit1(mask);
    lemma_emit_keeps(v1, mask, k - 2);
    let locate = StmtKind::PtrAdd {
        base_ptr: Arg::Tlb.spec_value(),
        offset: index,
        elem_size: TLB_ENTRY_SIZE,
    };
    let (v3, entry) = v2.emit1(locate);
    lemma_emit_keeps(v2, locate, k - 4);
    let read_ident = free_load(LoadType::HostPtr(AliasRegion::ReadOnly), entry, TLB_IDENT_OFFSET);
    let (v4, ident) = v3.emit1(read_ident);
    lemma_emit_keeps(v3, read_ident, k - 6);
    let same_ident = StmtKind::PtrEq(ident, Arg::IoMMUIdentifier.spec_value());
    let (v5, ident_matches) = v4.emit1(same_ident);
    lemma_emit_keeps(v4, same_ident, k - 8);
    let (v6, _) = v5.assert_or_jmp_to(ident_matches, true, fallback);
    lemma_branch_keeps(v5, ident_matches, true, fallback, k - 10);
    let read_number = free_load(LoadType::Int(IntWidth::W64), entry, TLB_PAGE_NUMBER_OFFSET);
    let (v7, found) = v6.emit1(read_number);
    lemma_emit_keeps(v6, read_number, k - 12);
    let same_number = StmtKind::IntCmp { predicate: IntCmp::Equal, lhs: page_number, rhs: found };
    let (v8, number_matches) = v7.emit1(same_number);
    lemma_emit_keeps(v7, same_number, k - 14);
    let (w, _) = v8.assert_or_jmp_to(number_matches, true, fallback);
    lemma_branch_keeps(v8, number_matches, true, fallback, k - 16);
    lemma_keeps_on(v7, v8, w);
    lemma_keeps_on(v6, v7, w);
    lemma_keeps_on(v5, v6, w);
    lemma_keeps_on(v4, v5, w);
    lemma_keeps_on(v3, v4, w);
    lemma_keeps_on(v2, v3, w);
    lemma_keeps_on(v1, v2, w);
    lemma_keeps_on(v, v1, w);
}

/// Ending a block, and then marking it as cold or going elsewhere.
proof fn lemma_terminate_keeps(v: IrView, block: Block, terminator: TerminatorView)
    requires
        block.index < v.blocks.len(),
        !v.block(block).terminated,
    ensures
        keeps(v, v.terminate(block, terminator)),
        rest_same(v, v.terminate(block, terminator), block),
{
    reveal(keeps);
    let e = v.terminate(block, terminator);
    assert forall|i: int| 0 <= i < v.blocks.len() implies block_kept(
        v.blocks[i],
        #[trigger] e.blocks[i],
    ) by {}
}

proof fn lemma_cold_keeps(v: IrView, block: Block)
    requires
        block.index < v.blocks.len(),
    ensures
        keeps(v, v.mark_cold(block)),
        v.mark_cold(block).blocks.len() == v.blocks.len(),
        forall|i: int|
            0 <= i < v.blocks.len() ==> same_code(
                #[trigger] v.mark_cold(block).blocks[i],
                v.blocks[i],
            ),
{
    reveal(keeps);
    let e = v.mark_cold(block);
    assert forall|i: int| 0 <= i < v.blocks.len() implies block_kept(
        v.blocks[i],
        #[trigger] e.blocks[i],
    ) by {}
}

/// The choice of the current block is no part of the code.
proof fn lemma_keeps_at(v: IrView, block: Block, w: IrView)
    ensures
        keeps(v.at(block), w) == keeps(v, w),
        keeps(w, v.at(block)) == keeps(w, v),
{
    reveal(keeps);
}

proof fn lemma_create_keeps(v: IrView)
    requires
        v.blocks.len() < u64::MAX,
    ensures
        keeps(v, v.create_block().0),
        v.create_block().1.index == v.blocks.len(),
{
    reveal(keeps);
}

/// A run at the end of a block that returns a number.
proof fn lemma_returns(
    v: IrView,
    value: SSAValue,
    w: IrView,
    host: Host,
    start: Flow,
    m: Machine,
    mem: HostMem,
)
    requires
        v.current.index < v.blocks.len(),
        keeps(v.terminate(v.current, TerminatorView::ReturnCode(value)), w),
        arrived(v, w, host, start, m, mem),
        m.has_int(value),
    ensures
        w.comes_to(host, start, Flow::Returned { code: m.number(value), m, mem }),
{
    reveal(arrived);
    let e = v.terminate(v.current, TerminatorView::ReturnCode(value));
    let b = v.current.index as int;
    assert(block_kept(e.blocks[b], w.blocks[b])) by {
        reveal(keeps);
    }
    lemma_comes_next(w, host, start, here(v, m, mem));
}

/// A run at the end of a block that jumps on, passing one value or none.
proof fn lemma_jumps(
    v: IrView,
    jump: JumpView,
    w: IrView,
    host: Host,
    start: Flow,
    m: Machine,
    mem: HostMem,
)
    requires
        v.current.index < v.blocks.len(),
        keeps(v.terminate(v.current, TerminatorView::Br(jump)), w),
        arrived(v, w, host, start, m, mem),
        w.block(jump.target).parameters.len() == jump.parameters.len(),
        jump.parameters.len() <= 1,
        jump.parameters.len() == 1 ==> m.env.contains_key(jump.parameters[0]),
    ensures
        w.comes_to(
            host,
            start,
            entering(
                jump.target,
                if jump.parameters.len() == 1 {
                    Machine {
                        env: m.env.insert(
                            w.block(jump.target).parameters[0],
                            m.env[jump.parameters[0]],
                        ),
                        ..m
                    }
                } else {
                    m
                },
                mem,
            ),
        ),
{
    reveal(arrived);
    reveal_with_fuel(bound, 2);
    let e = v.terminate(v.current, TerminatorView::Br(jump));
    let b = v.current.index as int;
    assert(block_kept(e.blocks[b], w.blocks[b])) by {
        reveal(keeps);
    }
    lemma_comes_next(w, host, start, here(v, m, mem));
}

/// The memory once a fault has been recorded in the execution context.
pub open spec fn fault_recorded(mem: HostMem, context: u64, vaddr: u64, op: MemOp) -> HostMem {
    HostMem {
        cells: mem.cells.insert(context + FAULT_VADDR_OFFSET, vaddr).insert(
            context + FAULT_MEM_OP_OFFSET,
            spec_mem_op_code(op) as u64,
        ).insert(context + FAULT_PENDING_OFFSET, 1),
        ..mem
    }
}

/// What the block that records a fault changes.
proof fn lemma_trap_keeps(v: IrView, vaddr: SSAValue, op: MemOp, width: IntWidth, k: int)
    requires
        open_at(v, k),
        k >= 20,
    ensures
        ({
            let (e, fail) = v.trap_block(vaddr, op, width);
            &&& keeps(v, e)
            &&& open_at(e, k - 14)
            &&& fail.index == v.blocks.len()
            &&& e.current == v.current
            &&& e.blocks.len() == v.blocks.len() + 1
            &&& v.types.len() <= e.types.len()
            &&& e.scratch_space == v.scratch_space
            &&& rest_same(v, e, fail)
            &&& e.block(fail).parameters.len() == 0
        }),
{
    let (v1, fail) = v.create_block();
    lemma_create_keeps(v);
    let u1 = v1.at(fail);
    lemma_keeps_at(v1, fail, v);
    let s1 = store_context(FAULT_VADDR_OFFSET, vaddr);
    let v2 = u1.emit(s1);
    lemma_emit_keeps(u1, s1, k - 2);
    let s2 = constant(IntWidth::W8, spec_mem_op_code(op) as u64);
    let (v3, code) = v2.emit1(s2);
    lemma_emit_keeps(v2, s2, k - 4);
    let s3 = store_context(FAULT_MEM_OP_OFFSET, code);
    let v4 = v3.emit(s3);
    lemma_emit_keeps(v3, s3, k - 6);
    let s4 = constant(IntWidth::W8, 1);
    let (v5, pending) = v4.emit1(s4);
    lemma_emit_keeps(v4, s4, k - 8);
    let s5 = store_context(FAULT_PENDING_OFFSET, pending);
    let v6 = v5.emit(s5);
    lemma_emit_keeps(v5, s5, k - 10);
    let s6 = constant(
        IntWidth::W32,
        HaltReason::spec_memory_trap(width.spec_bytes() as u8).code as u64,
    );
    let (v7, reason) = v6.emit1(s6);
    lemma_emit_keeps(v6, s6, k - 12);
    let v8 = v7.terminate(fail, TerminatorView::ReturnCode(reason));
    lemma_terminate_keeps(v7, fail, TerminatorView::ReturnCode(reason));
    let w = v8.mark_cold(fail);
    lemma_cold_keeps(v8, fail);
    lemma_keeps_on(v7, v8, w);
    lemma_keeps_on(v6, v7, w);
    lemma_keeps_on(v5, v6, w);
    lemma_keeps_on(v4, v5, w);
    lemma_keeps_on(v3, v4, w);
    lemma_keeps_on(v2, v3, w);
    lemma_keeps_on(u1, v2, w);
    lemma_keeps_on(v, u1, w);
    lemma_keeps_at(w, v.current, v);
}

/// Running the block that records a fault: it leaves with a memory trap.
#[verifier::spinoff_prover]
#[verifier::rlimit(100)]
proof fn lemma_trap_runs(
    v: IrView,
    vaddr: SSAValue,
    op: MemOp,
    width: IntWidth,
    k: int,
    w: IrView,
    host: Host,
    start: Flow,
    m: Machine,
    mem: HostMem,
) -> (r: Machine)
    requires
        open_at(v, k),
        k >= 20,
        v.types.len() >= 6,
        v.has(vaddr),
        m.has_int(vaddr),
        m.has_int(Arg::ExecContext.spec_value()),
        keeps(v.trap_block(vaddr, op, width).0, w),
        w.comes_to(host, start, entering(v.trap_block(vaddr, op, width).1, m, mem)),
    ensures
        kept(v, m, r),
        w.comes_to(
            host,
            start,
            Flow::Returned {
                code: HaltReason::spec_memory_trap(width.spec_bytes() as u8).code as u64,
                m: r,
                mem: fault_recorded(
                    mem,
                    m.number(Arg::ExecContext.spec_value()),
                    m.number(vaddr),
                    op,
                ),
            },
        ),
{
    let (v1, fail) = v.create_block();
    lemma_create_keeps(v);
    let u1 = v1.at(fail);
    let s1 = store_context(FAULT_VADDR_OFFSET, vaddr);
    let v2 = u1.emit(s1);
    lemma_emit_keeps(u1, s1, k - 2);
    let s2 = constant(IntWidth::W8, spec_mem_op_code(op) as u64);
    let (v3, code) = v2.emit1(s2);
    lemma_emit_keeps(v2, s2, k - 4);
    let s3 = store_context(FAULT_MEM_OP_OFFSET, code);
    let v4 = v3.emit(s3);
    lemma_emit_keeps(v3, s3, k - 6);
    let s4 = constant(IntWidth::W8, 1);
    let (v5, pending) = v4.emit1(s4);
    lemma_emit_keeps(v4, s4, k - 8);
    let s5 = store_context(FAULT_PENDING_OFFSET, pending);
    let v6 = v5.emit(s5);
    lemma_emit_keeps(v5, s5, k - 10);
    let trap = HaltReason::spec_memory_trap(width.spec_bytes() as u8).code as u64;
    let s6 = constant(IntWidth::W32, trap);
    let (v7, reason) = v6.emit1(s6);
    lemma_emit_keeps(v6, s6, k - 12);
    let v8 = v7.terminate(fail, TerminatorView::ReturnCode(reason));
    lemma_terminate_keeps(v7, fail, TerminatorView::ReturnCode(reason));
    let v9 = v8.mark_cold(fail);
    lemma_cold_keeps(v8, fail);
    lemma_keeps_at(v9, v.current, w);
    lemma_keeps_on(v8, v9, w);
    lemma_keeps_on(v7, v8, w);
    lemma_keeps_on(v6, v7, w);
    lemma_keeps_on(v5, v6, w);
    lemma_keeps_on(v4, v5, w);
    lemma_keeps_on(v3, v4, w);
    lemma_keeps_on(v2, v3, w);
    assert(arrived(u1, w, host, start, m, mem)) by {
        reveal(arrived);
    }
    let context = m.number(Arg::ExecContext.spec_value());
    let (n1, mem1) = lemma_runs(u1, s1, k - 2, w, host, start, m, mem);
    assert(n1 == m);
    let m2 = lemma_value(v2, s2, k - 4, w, host, start, m, mem1);
    let (n3, mem3) = lemma_runs(v3, s3, k - 6, w, host, start, m2, mem1);
    assert(n3 == m2);
    let m4 = lemma_value(v4, s4, k - 8, w, host, start, m2, mem3);
    let (n5, mem5) = lemma_runs(v5, s5, k - 10, w, host, start, m4, mem3);
    assert(n5 == m4);
    let m6 = lemma_value(v6, s6, k - 12, w, host, start, m4, mem5);
    lemma_returns(v7, reason, w, host, start, m6, mem5);
    assert(mem5 =~= fault_recorded(mem, context, m.number(vaddr), op));
    m6
}

/// What checking the alignment changes.
proof fn lemma_alignment_keeps(
    v: IrView,
    vaddr: SSAValue,
    width: IntWidth,
    fallback: Block,
    k: int,
)
    requires
        open_at(v, k),
        k >= 8,
        fallback.index < v.blocks.len(),
        fallback != v.current,
    ensures
        ({
            let e = v.check_alignment(vaddr, width, fallback);
            &&& keeps(v, e)
            &&& open_at(e, k - 6)
            &&& e.current == v.current || v.blocks.len() <= e.current.index
            &&& v.blocks.len() <= e.blocks.len()
            &&& v.types.len() <= e.types.len()
            &&& e.scratch_space == v.scratch_space
            &&& rest_same(v, e, v.current)
        }),
{
    if width == IntWidth::W8 {
        lemma_keeps_self(v);
    } else {
        let mask = StmtKind::BitwiseImm {
            op: BitwiseOp::And,
            lhs: vaddr,
            rhs: (width.spec_bytes() - 1) as u64,
        };
        let (v1, low) = v.emit1(mask);
        lemma_emit_keeps(v, mask, k);
        let (v2, aligned) = v1.emit1(equals(low, 0));
        lemma_emit_keeps(v1, equals(low, 0), k - 2);
        let w = v2.assert_or_jmp_to(aligned, true, fallback).0;
        lemma_branch_keeps(v2, aligned, true, fallback, k - 4);
        lemma_keeps_on(v1, v2, w);
        lemma_keeps_on(v, v1, w);
    }
}

proof fn lemma_low_bits(a: u64)
    by (bit_vector)
    ensures
        a & 1 == a % 2,
        a & 3 == a % 4,
        a & 7 == a % 8,
        a & 4095 == a % 4096,
{
}

/// Checking the alignment: an address that is not aligned goes to the
/// fallback.
proof fn lemma_alignment_runs(
    v: IrView,
    vaddr: SSAValue,
    width: IntWidth,
    fallback: Block,
    k: int,
    w: IrView,
    host: Host,
    start: Flow,
    m: Machine,
    mem: HostMem,
) -> (r: Machine)
    requires
        open_at(v, k),
        k >= 8,
        fallback.index < v.blocks.len(),
        fallback != v.current,
        v.block(fallback).parameters.len() == 0,
        v.has(vaddr),
        m.has_int(vaddr),
        keeps(v.check_alignment(vaddr, width, fallback), w),
        arrived(v, w, host, start, m, mem),
    ensures
        kept(v, m, r),
        if m.number(vaddr) as int % width.spec_bytes() == 0 {
            arrived(v.check_alignment(vaddr, width, fallback), w, host, start, r, mem)
        } else {
            w.comes_to(host, start, entering(fallback, r, mem))
        },
{
    if width == IntWidth::W8 {
        assert(m.number(vaddr) as int % 1 == 0);
        m
    } else {
        let mask = StmtKind::BitwiseImm {
            op: BitwiseOp::And,
            lhs: vaddr,
            rhs: (width.spec_bytes() - 1) as u64,
        };
        let (v1, low) = v.emit1(mask);
        lemma_emit_keeps(v, mask, k);
        let (v2, aligned) = v1.emit1(equals(low, 0));
        lemma_emit_keeps(v1, equals(low, 0), k - 2);
        let v3 = v2.assert_or_jmp_to(aligned, true, fallback).0;
        lemma_branch_keeps(v2, aligned, true, fallback, k - 4);
        lemma_keeps_on(v2, v3, w);
        lemma_keeps_on(v1, v2, w);
        let m1 = lemma_value(v, mask, k, w, host, start, m, mem);
        let m2 = lemma_value(v1, equals(low, 0), k - 2, w, host, start, m1, mem);
        lemma_branch(v2, aligned, true, fallback, k - 4, w, host, start, m2, mem);
        lemma_low_bits(m.number(vaddr));
        m2
    }
}

/// The numbers that a host access gets.
pub open spec fn host_numbers(m: Machine, vaddr: SSAValue, last: u64) -> Seq<u64> {
    seq![
        m.number(Arg::IoMMU.spec_value()),
        m.number(Arg::Tlb.spec_value()),
        m.number(Arg::ExecContext.spec_value()),
        m.number(vaddr),
        last,
    ]
}

/// What calling the host leaves behind.
pub open spec fn called(
    host: Host,
    func: HostCallback,
    numbers: Seq<u64>,
    mem: HostMem,
) -> (HostMem, u64) {
    let (after, status) = host(func, numbers, mem);
    (HostMem { stack: mem.stack, ..after }, status)
}

/// What a host call changes.
proof fn lemma_call_keeps(
    v: IrView,
    func: HostCallback,
    signature: CallbackSignature,
    args: Seq<u64>,
    k: int,
)
    requires
        open_at(v, k),
        k >= 4,
    ensures
        ({
            let (e, status) = v.call_host(func, signature, args);
            &&& keeps(v, e)
            &&& open_at(e, k - 4)
            &&& e.current == v.current
            &&& e.blocks.len() == v.blocks.len()
            &&& v.types.len() <= e.types.len()
            &&& e.scratch_space == v.scratch_space
            &&& rest_same(v, e, v.current)
            &&& e.calls == v.calls.push(args)
            &&& e.block(v.current).parameters == v.block(v.current).parameters
        }),
{
    let c = IrView { calls: v.calls.push(args), ..v };
    let rvalue = StmtKind::HostCallback {
        func,
        signature,
        args: CallArgs { index: v.calls.len() as u64 },
    };
    assert(open_at(c, k - 2));
    assert(keeps(v, c)) by {
        reveal(keeps);
    }
    lemma_emit_keeps(c, rvalue, k - 2);
    lemma_keeps_on(v, c, c.emit(rvalue));
}

/// Running a host access.
proof fn lemma_call_runs(
    v: IrView,
    func: HostCallback,
    signature: CallbackSignature,
    vaddr: SSAValue,
    last: SSAValue,
    k: int,
    w: IrView,
    host: Host,
    start: Flow,
    m: Machine,
    mem: HostMem,
) -> (r: Machine)
    requires
        open_at(v, k),
        k >= 4,
        signature.spec_ret() is Some,
        inputs(v, m, vaddr),
        m.has_int(last),
        keeps(v.call_host(func, signature, host_args(vaddr, last)).0, w),
        arrived(v, w, host, start, m, mem),
    ensures
        ({
            let (e, status) = v.call_host(func, signature, host_args(vaddr, last));
            let (mem2, code) = called(
                host,
                func,
                host_numbers(m, vaddr, m.number(last)),
                mem,
            );
            &&& r == (Machine { env: m.env.insert(v.next().index, Val::Int(code)), ..m })
            &&& status == v.next()
            &&& arrived(e, w, host, start, r, mem2)
        }),
{
    let args = host_args(vaddr, last);
    lemma_call_keeps(v, func, signature, args, k);
    let c = IrView { calls: v.calls.push(args), ..v };
    let rvalue = StmtKind::HostCallback {
        func,
        signature,
        args: CallArgs { index: v.calls.len() as u64 },
    };
    let e = c.emit(rvalue);
    assert(e.calls.is_prefix_of(w.calls)) by {
        reveal(keeps);
    }
    assert(w.calls[v.calls.len() as int] == e.calls[v.calls.len() as int]);
    assert(arrived(c, w, host, start, m, mem)) by {
        reveal(arrived);
    }
    let numbers = Seq::new(args.len(), |i: int| m.number(SSAValue { index: args[i] }));
    assert(numbers =~= host_numbers(m, vaddr, m.number(last)));
    assert forall|i: int| 0 <= i < args.len() implies m.has_int(
        SSAValue { index: #[trigger] args[i] },
    ) by {}
    let outputs = Seq::new(1, |i: int| (c.types.len() + i) as u64);
    assert(outputs[0] == v.next().index);
    lemma_runs(c, rvalue, k - 2, w, host, start, m, mem).0
}

/// What the host part of a load changes.
#[verifier::spinoff_prover]
#[verifier::rlimit(60)]
proof fn lemma_host_load_keeps(
    v: IrView,
    vaddr: SSAValue,
    width: IntWidth,
    exclusive: bool,
    k: int,
)
    requires
        open_at(v, k),
        k >= 20,
    ensures
        ({
            let (e, value) = v.host_load(vaddr, width, exclusive);
            &&& keeps(v, e)
            &&& open_at(e, k - 16)
            &&& v.blocks.len() <= e.current.index
            &&& v.types.len() <= value.index < e.types.len()
            &&& e.scratch_space == v.with_scratch().scratch_space
            &&& rest_same(v, e, v.current)
            &&& e.block(v.current).parameters == v.block(v.current).parameters
        }),
{
    let (func, signature) = spec_load_callback(width, exclusive);
    let u = v.with_scratch();
    assert(keeps(v, u)) by {
        reveal(keeps);
    }
    assert(open_at(u, k - 2));
    let get = StmtKind::LoadStackPtr { slot: u.scratch_space->0 };
    let (v1, ptr) = u.emit1(get);
    lemma_emit_keeps(u, get, k - 2);
    let (v2, status) = v1.call_host(func, signature, host_args(vaddr, ptr));
    lemma_call_keeps(v1, func, signature, host_args(vaddr, ptr), k - 4);
    let reason = HaltReason::spec_memory_trap(width.spec_bytes() as u8);
    let (v3, fail) = v2.halt_block(reason);
    lemma_halt_keeps(v2, reason, k - 8);
    let (v4, _) = v3.assert_or_jmp_to(status, false, fail);
    lemma_branch_keeps(v3, status, false, fail, k - 12);
    let read = scratch_load(width, ptr);
    let w = v4.emit(read);
    lemma_emit_keeps(v4, read, k - 14);
    lemma_keeps_on(v3, v4, w);
    lemma_keeps_on(v2, v3, w);
    lemma_keeps_on(v1, v2, w);
    lemma_keeps_on(u, v1, w);
    lemma_keeps_on(v, u, w);
}

/// Running the host part of a load: it goes on with what the host has left,
/// or leaves with a memory trap if the host gives a status other than zero.
#[verifier::spinoff_prover]
#[verifier::rlimit(100)]
proof fn lemma_host_load_runs(
    v: IrView,
    vaddr: SSAValue,
    width: IntWidth,
    exclusive: bool,
    k: int,
    w: IrView,
    host: Host,
    start: Flow,
    m: Machine,
    mem: HostMem,
) -> (r: Machine)
    requires
        open_at(v, k),
        k >= 20,
        inputs(v, m, vaddr),
        mem.stack.contains_key((v.with_scratch().scratch_space->0).index),
        keeps(v.host_load(vaddr, width, exclusive).0, w),
        arrived(v, w, host, start, m, mem),
        ({
            let scratch = mem.stack[(v.with_scratch().scratch_space->0).index];
            let (mem2, status) = called(
                host,
                spec_load_callback(width, exclusive).0,
                host_numbers(m, vaddr, scratch),
                mem,
            );
            status == 0 ==> mem2.cells.contains_key(scratch as int)
        }),
    ensures
        kept(v, m, r),
        ({
            let (e, value) = v.host_load(vaddr, width, exclusive);
            let scratch = mem.stack[(v.with_scratch().scratch_space->0).index];
            let (mem2, status) = called(
                host,
                spec_load_callback(width, exclusive).0,
                host_numbers(m, vaddr, scratch),
                mem,
            );
            if status == 0 {
                &&& arrived(e, w, host, start, r, mem2)
                &&& r.has_int(value)
                &&& r.number(value) == width.wrap(mem2.cells[scratch as int] as int)
            } else {
                w.comes_to(host, start, trapped(width, r, mem2))
            }
        }),
{
    let (func, signature) = spec_load_callback(width, exclusive);
    let u = v.with_scratch();
    let get = StmtKind::LoadStackPtr { slot: u.scratch_space->0 };
    let (v1, ptr) = u.emit1(get);
    lemma_emit_keeps(u, get, k - 2);
    let (v2, status) = v1.call_host(func, signature, host_args(vaddr, ptr));
    lemma_call_keeps(v1, func, signature, host_args(vaddr, ptr), k - 4);
    let reason = HaltReason::spec_memory_trap(width.spec_bytes() as u8);
    let (v3, fail) = v2.halt_block(reason);
    lemma_halt_keeps(v2, reason, k - 8);
    let (v4, _) = v3.assert_or_jmp_to(status, false, fail);
    lemma_branch_keeps(v3, status, false, fail, k - 12);
    let read = scratch_load(width, ptr);
    let v5 = v4.emit(read);
    lemma_emit_keeps(v4, read, k - 14);
    lemma_keeps_on(v4, v5, w);
    lemma_keeps_on(v3, v4, w);
    lemma_keeps_on(v2, v3, w);
    lemma_keeps_on(v1, v2, w);
    assert(arrived(u, w, host, start, m, mem)) by {
        reveal(arrived);
    }
    let scratch = mem.stack[(u.scratch_space->0).index];
    let m1 = lemma_value(u, get, k - 2, w, host, start, m, mem);
    assert(m1.number(ptr) == scratch);
    assert(inputs(v1, m1, vaddr));
    assert(host_numbers(m1, vaddr, scratch) =~= host_numbers(m, vaddr, scratch));
    let m2 = lemma_call_runs(v1, func, signature, vaddr, ptr, k - 4, w, host, start, m1, mem);
    let (mem2, code) = called(host, func, host_numbers(m, vaddr, scratch), mem);
    assert(m2.number(status) == code);
    assert(arrived(v3, w, host, start, m2, mem2)) by {
        reveal(arrived);
    }
    lemma_branch(v3, status, false, fail, k - 12, w, host, start, m2, mem2);
    if code == 0 {
        let m3 = lemma_value(v4, read, k - 14, w, host, start, m2, mem2);
        assert(m2.number(ptr) == scratch);
        m3
    } else {
        let m3 = lemma_halt_runs(v2, reason, k - 8, w, host, start, m2, mem2);
        assert(kept(v, m, m2));
        lemma_kept_on(v, v2, m, m2, m3);
        m3
    }
}

/// Back at the caller with a memory trap.
pub open spec fn trapped(width: IntWidth, m: Machine, mem: HostMem) -> Flow {
    Flow::Returned {
        code: HaltReason::spec_memory_trap(width.spec_bytes() as u8).code as u64,
        m,
        mem,
    }
}

/// What the host part of a load in a block of its own changes.
proof fn lemma_fallback_load_keeps(v: IrView, vaddr: SSAValue, width: IntWidth, k: int)
    requires
        open_at(v, k),
        k >= 30,
    ensures
        ({
            let (e, fallback) = v.fallback(vaddr, VmAccessKind::Load { width });
            &&& keeps(v, e)
            &&& open_at(e, k - 18)
            &&& e.current == v.current
            &&& fallback.block.index == v.blocks.len()
            &&& v.blocks.len() < fallback.ok_block.index < e.blocks.len()
            &&& e.block(fallback.block).parameters.len() == 0
            &&& !e.block(fallback.ok_block).terminated
            &&& v.types.len() <= (fallback.value->0).index < e.types.len()
            &&& forall|i: int|
                0 <= i < v.blocks.len() ==> same_code(#[trigger] e.blocks[i], v.blocks[i])
        }),
{
    let (v1, block) = v.create_block();
    lemma_create_keeps(v);
    let u1 = v1.at(block);
    lemma_keeps_at(v1, block, v);
    let v2 = u1.mark_cold(block);
    lemma_cold_keeps(u1, block);
    assert(same_code(v2.blocks[block.index as int], BlockView::blank()));
    assert(open_at(v2, k - 2));
    let (v3, value) = v2.host_load(vaddr, width, false);
    lemma_host_load_keeps(v2, vaddr, width, false, k - 2);
    let w = v3.at(v.current);
    lemma_keeps_at(v3, v.current, v);
    lemma_keeps_on(v, u1, v2);
    lemma_keeps_on(v, v2, v3);
    assert forall|i: int| 0 <= i < v.blocks.len() implies same_code(
        #[trigger] w.blocks[i],
        v.blocks[i],
    ) by {
        assert(same_code(v2.blocks[i], u1.blocks[i]));
        assert(same_code(v3.blocks[i], v2.blocks[i]));
    }
    assert(same_code(w.blocks[v.current.index as int], v.blocks[v.current.index as int]));
}

/// Running the host part of a load from the beginning of its block.
proof fn lemma_fallback_load_runs(
    v: IrView,
    vaddr: SSAValue,
    width: IntWidth,
    k: int,
    w: IrView,
    host: Host,
    start: Flow,
    m: Machine,
    mem: HostMem,
) -> (r: Machine)
    requires
        open_at(v, k),
        k >= 30,
        inputs(v, m, vaddr),
        mem.stack.contains_key((v.with_scratch().scratch_space->0).index),
        keeps(v.fallback(vaddr, VmAccessKind::Load { width }).0, w),
        w.comes_to(
            host,
            start,
            entering(v.fallback(vaddr, VmAccessKind::Load { width }).1.block, m, mem),
        ),
        delivers(
            host,
            width,
            false,
            host_numbers(m, vaddr, scratch_of(v, mem)),
            scratch_of(v, mem),
            mem,
        ),
    ensures
        kept(v, m, r),
        ({
            let (e, fallback) = v.fallback(vaddr, VmAccessKind::Load { width });
            let scratch = scratch_of(v, mem);
            let (mem2, status) = called(
                host,
                HostCallback::Load(width),
                host_numbers(m, vaddr, scratch),
                mem,
            );
            if status == 0 {
                &&& arrived(e.at(fallback.ok_block), w, host, start, r, mem2)
                &&& r.has_int(fallback.value->0)
                &&& r.number(fallback.value->0) == width.wrap(mem2.cells[scratch as int] as int)
            } else {
                w.comes_to(host, start, trapped(width, r, mem2))
            }
        }),
{
    let (v1, block) = v.create_block();
    let u1 = v1.at(block);
    let v2 = u1.mark_cold(block);
    lemma_cold_keeps(u1, block);
    assert(same_code(v2.blocks[block.index as int], BlockView::blank()));
    let (v3, value) = v2.host_load(vaddr, width, false);
    lemma_host_load_keeps(v2, vaddr, width, false, k - 2);
    lemma_keeps_at(v3, v.current, w);
    assert(arrived(v2, w, host, start, m, mem)) by {
        reveal(arrived);
    }
    assert(v2.with_scratch().scratch_space == v.with_scratch().scratch_space);
    let r = lemma_host_load_runs(v2, vaddr, width, false, k - 2, w, host, start, m, mem);
    assert(here(v3.at(v.current).at(v3.current), r, mem) == here(v3, r, mem));
    assert(v3.at(v.current).at(v3.current) == v3);
    r
}

/// Where the host leaves what it loads.
pub open spec fn scratch_of(v: IrView, mem: HostMem) -> u64 {
    mem.stack[(v.with_scratch().scratch_space->0).index]
}

/// A host load that succeeds has left something.
pub open spec fn delivers(
    host: Host,
    width: IntWidth,
    exclusive: bool,
    numbers: Seq<u64>,
    scratch: u64,
    mem: HostMem,
) -> bool {
    let (mem2, status) = called(host, spec_load_callback(width, exclusive).0, numbers, mem);
    status == 0 ==> mem2.cells.contains_key(scratch as int)
}

/// What joining the inlined load and the fallback changes.
proof fn lemma_merge_keeps(
    v: IrView,
    width: IntWidth,
    inlined: SSAValue,
    ok_block: Block,
    fallback: SSAValue,
    k: int,
)
    requires
        open_at(v, k),
        k >= 2,
        ok_block.index < v.blocks.len(),
        ok_block != v.current,
        !v.block(ok_block).terminated,
    ensures
        ({
            let (e, param) = v.merge_loads(width, inlined, ok_block, fallback);
            let merge = Block { index: v.blocks.len() as u64 };
            let (v1, _) = v.create_block();
            let (v2, _) = v1.at(merge).add_parameter(merge, TypeFull::Int(width));
            let first = TerminatorView::Br(
                JumpView { parameters: seq![inlined.index], target: merge },
            );
            let second = TerminatorView::Br(
                JumpView { parameters: seq![fallback.index], target: merge },
            );
            &&& keeps(v, e)
            &&& keeps(v, v2)
            &&& keeps(v2.terminate(v.current, first), e)
            &&& e == v2.terminate(v.current, first).terminate(ok_block, second)
            &&& param.index == v.types.len()
            &&& e.current == merge
            &&& e.block(merge).stmts.len() == 0
            &&& e.block(merge).parameters == seq![param.index]
            &&& v2.block(v.current) == v.block(v.current)
            &&& v2.block(ok_block) == v.block(ok_block)
            &&& v2.terminate(v.current, first).block(ok_block) == v.block(ok_block)
        }),
{
    let merge = Block { index: v.blocks.len() as u64 };
    let (v1, _) = v.create_block();
    let (v2, _) = v1.at(merge).add_parameter(merge, TypeFull::Int(width));
    assert(keeps(v, v2)) by {
        reveal(keeps);
    }
    let first = TerminatorView::Br(JumpView { parameters: seq![inlined.index], target: merge });
    let second = TerminatorView::Br(JumpView { parameters: seq![fallback.index], target: merge });
    lemma_terminate_keeps(v2, v.current, first);
    let v3 = v2.terminate(v.current, first);
    lemma_terminate_keeps(v3, ok_block, second);
    lemma_keeps_on(v, v2, v3);
    lemma_keeps_on(v, v3, v3.terminate(ok_block, second));
    assert(v3.terminate(ok_block, second).block(merge).parameters =~= seq![v.types.len() as u64]);
}

/// Compiled code finds the page of an access in the TLB, and the access is
/// aligned.
pub open spec fn inlined(m: Machine, mem: HostMem, vaddr: SSAValue, width: IntWidth) -> bool {
    let a = m.number(vaddr);
    &&& knows(
        mem,
        entry_of(m.number(Arg::Tlb.spec_value()), a),
        m.number(Arg::IoMMUIdentifier.spec_value()),
        a,
    )
    &&& a as int % width.spec_bytes() == 0
}

/// The tagged page pointer in the TLB entry of an access.
pub open spec fn tagged_ptr(m: Machine, mem: HostMem, vaddr: SSAValue) -> u64 {
    mem.cells[entry_of(m.number(Arg::Tlb.spec_value()), m.number(vaddr)) + TLB_TAGGED_PTR_OFFSET]
}

/// The address of the page that the TLB entry of an access points to.
pub open spec fn page_ptr(m: Machine, mem: HostMem, vaddr: SSAValue) -> u64 {
    tagged_ptr(m, mem, vaddr) & !(TAG_ALL as u64)
}

/// What an emitted load of guest memory needs to run: its inputs, a TLB
/// entry, scratch space, a page behind every pointer that it follows, and a
/// host that leaves a value when it succeeds.
pub open spec fn can_load(
    v: IrView,
    host: Host,
    m: Machine,
    mem: HostMem,
    vaddr: SSAValue,
    width: IntWidth,
) -> bool {
    &&& inputs(v, m, vaddr)
    &&& has_entry(mem, entry_of(m.number(Arg::Tlb.spec_value()), m.number(vaddr)))
    &&& mem.stack.contains_key((v.with_scratch().scratch_space->0).index)
    &&& delivers(
        host,
        width,
        false,
        host_numbers(m, vaddr, scratch_of(v, mem)),
        scratch_of(v, mem),
        mem,
    )
    &&& inlined(m, mem, vaddr, width) && tagged_ptr(m, mem, vaddr) & (TAG_READ as u64) != 0 ==> {
        &&& mem.pages.contains_key(page_ptr(m, mem, vaddr))
        &&& mem.pages[page_ptr(m, mem, vaddr)].len() == 4096
    }
}

/// How a run of a load goes on through the host.
pub open spec fn loads_through_host(
    v: IrView,
    host: Host,
    m: Machine,
    mem: HostMem,
    vaddr: SSAValue,
    width: IntWidth,
    w: IrView,
    value: SSAValue,
    r: Machine,
) -> bool {
    let scratch = scratch_of(v, mem);
    let (mem2, status) = called(
        host,
        HostCallback::Load(width),
        host_numbers(m, vaddr, scratch),
        mem,
    );
    if status == 0 {
        &&& w.comes_to(host, here(v, m, mem), entering(w.current, r, mem2))
        &&& r.has_int(value)
        &&& r.number(value) == width.wrap(mem2.cells[scratch as int] as int)
    } else {
        w.comes_to(host, here(v, m, mem), trapped(width, r, mem2))
    }
}

/// An aligned access stays in its page.
pub proof fn lemma_stays_in_page(a: u64, width: IntWidth)
    requires
        a as int % width.spec_bytes() == 0,
    ensures
        a as int % 4096 + width.spec_bytes() <= 4096,
{
    let x = a as int;
    match width {
        IntWidth::W8 => {
            assert(width.spec_bytes() == 1);
        },
        IntWidth::W16 => {
            assert(width.spec_bytes() == 2);
            assert(x % 4096 + 2 <= 4096);
        },
        IntWidth::W32 => {
            assert(width.spec_bytes() == 4);
            assert(x % 4096 + 4 <= 4096);
        },
        IntWidth::W64 => {
            assert(width.spec_bytes() == 8);
            assert(x % 4096 + 8 <= 4096);
        },
    }
}

/// What a load of guest memory does when it runs. If the TLB knows the page
/// and the address is aligned, the value is read from the page that the entry
/// points to, unless the entry does not allow it: that records a fault at the
/// address and leaves with a memory trap. Otherwise the host is asked, and
/// the value is what it has left; if it has failed, the run leaves with a
/// memory trap. The guest CPU's state stays as it was in every case.
#[verifier::spinoff_prover]
#[verifier::rlimit(100)]
pub proof fn law_vm_load(
    v: IrView,
    vaddr: SSAValue,
    width: IntWidth,
    seq_cst: bool,
    host: Host,
    m: Machine,
    mem: HostMem,
) -> (r: Machine)
    requires
        open_at(v, 200),
        can_load(v, host, m, mem, vaddr, width),
    ensures
        kept(v, m, r),
        ({
            let (w, loaded) = v.vm_access(vaddr, VmAccessKind::Load { width }, seq_cst);
            let value = loaded->0;
            if !inlined(m, mem, vaddr, width) {
                loads_through_host(v, host, m, mem, vaddr, width, w, value, r)
            } else if tagged_ptr(m, mem, vaddr) & (TAG_READ as u64) == 0 {
                w.comes_to(
                    host,
                    here(v, m, mem),
                    trapped(
                        width,
                        r,
                        fault_recorded(
                            mem,
                            m.number(Arg::ExecContext.spec_value()),
                            m.number(vaddr),
                            MemOp::Load,
                        ),
                    ),
                )
            } else {
                &&& w.comes_to(host, here(v, m, mem), entering(w.current, r, mem))
                &&& r.has_int(value)
                &&& r.number(value) == le_value(
                    window(
                        mem.pages[page_ptr(m, mem, vaddr)],
                        m.number(vaddr) as int % 4096,
                        width.spec_bytes(),
                    ),
                ) as u64
            }
        }),
{
    let access = VmAccessKind::Load { width };
    let start = here(v, m, mem);
    let a = m.number(vaddr);
    let (v1, fallback) = v.fallback(vaddr, access);
    lemma_fallback_load_keeps(v, vaddr, width, 200);
    let (v2, entry) = v1.tlb_probe(vaddr, fallback.block);
    lemma_probe_keeps(v1, vaddr, fallback.block, 182);
    let read_tagged = free_load(
        LoadType::HostPtr(AliasRegion::VirtualMemory),
        entry,
        TLB_TAGGED_PTR_OFFSET,
    );
    let (v3, tagged) = v2.emit1(read_tagged);
    lemma_emit_keeps(v2, read_tagged, 164);
    let mask = StmtKind::BitwiseImm { op: BitwiseOp::And, lhs: vaddr, rhs: PAGE_OFFSET_MASK };
    let (v4, offset) = v3.emit1(mask);
    lemma_emit_keeps(v3, mask, 162);
    let v5 = v4.check_alignment(vaddr, width, fallback.block);
    lemma_alignment_keeps(v4, vaddr, width, fallback.block, 160);
    let test = StmtKind::HasTag { ptr: tagged, tag_bits: TAG_READ };
    let (v6, allowed) = v5.emit1(test);
    lemma_emit_keeps(v5, test, 154);
    let (v7, trap) = v6.trap_block(vaddr, MemOp::Load, width);
    lemma_trap_keeps(v6, vaddr, MemOp::Load, width, 152);
    let (v8, _) = v7.assert_or_jmp_to(allowed, true, trap);
    lemma_branch_keeps(v7, allowed, true, trap, 138);
    let untag = StmtKind::Untag { ptr: tagged, tag_bits: TAG_ALL };
    let (v9, page) = v8.emit1(untag);
    lemma_emit_keeps(v8, untag, 136);
    let read = StmtKind::VMLoadRaw { aligned_page_ptr: page, page_offset: offset, width, seq_cst };
    let (v10, value) = v9.emit1(read);
    lemma_emit_keeps(v9, read, 134);
    assert(same_code(v10.block(fallback.ok_block), v1.block(fallback.ok_block))) by {
        lemma_ok_block_same(v1, v2, v3, v4, v5, v6, v7, v8, v9, v10, trap, fallback.ok_block);
    }
    let (w, param) = v10.merge_loads(width, value, fallback.ok_block, fallback.value->0);
    lemma_merge_keeps(v10, width, value, fallback.ok_block, fallback.value->0, 132);
    lemma_keeps_on(v9, v10, w);
    lemma_keeps_on(v8, v9, w);
    lemma_keeps_on(v7, v8, w);
    lemma_keeps_on(v6, v7, w);
    lemma_keeps_on(v5, v6, w);
    lemma_keeps_on(v4, v5, w);
    lemma_keeps_on(v3, v4, w);
    lemma_keeps_on(v2, v3, w);
    lemma_keeps_on(v1, v2, w);
    assert(v.vm_access(vaddr, access, seq_cst) == (w, Some(param)));
    assert(arrived(v1, w, host, start, m, mem)) by {
        reveal(arrived);
        lemma_comes_self(w, host, start);
    }
    let at = entry_of(m.number(Arg::Tlb.spec_value()), a);
    assert(v.types.is_prefix_of(v1.types)) by {
        reveal(keeps);
    }
    assert(inputs(v1, m, vaddr));
    let m2 = lemma_probe(v1, vaddr, fallback.block, 182, w, host, start, m, mem);
    if !knows(mem, at, m.number(Arg::IoMMUIdentifier.spec_value()), a) {
        lemma_load_falls_back(v, vaddr, width, v10, w, value, host, m, m2, mem)
    } else {
        let m3 = lemma_value(v2, read_tagged, 164, w, host, start, m2, mem);
        let m4 = lemma_value(v3, mask, 162, w, host, start, m3, mem);
        assert(kept(v1, m, m4));
        lemma_low_bits(a);
        assert(m4.number(offset) == a % 4096);
        let m5 = lemma_alignment_runs(
            v4,
            vaddr,
            width,
            fallback.block,
            160,
            w,
            host,
            start,
            m4,
            mem,
        );
        lemma_kept_on(v1, v4, m, m4, m5);
        if a as int % width.spec_bytes() != 0 {
            lemma_load_falls_back(v, vaddr, width, v10, w, value, host, m, m5, mem)
        } else {
            assert(m4.env.contains_key(tagged.index) && m4.env.contains_key(offset.index));
            assert(m5.has_int(tagged) && m5.number(tagged) == tagged_ptr(m, mem, vaddr));
            assert(m5.has_int(offset) && m5.number(offset) == a % 4096);
            let m6 = lemma_value(v5, test, 154, w, host, start, m5, mem);
            assert(kept(v5, m5, m6));
            lemma_kept_on(v1, v5, m, m5, m6);
            assert(arrived(v7, w, host, start, m6, mem)) by {
                reveal(arrived);
                assert(same_code(
                    v7.blocks[v6.current.index as int],
                    v6.blocks[v6.current.index as int],
                ));
            }
            lemma_branch(v7, allowed, true, trap, 138, w, host, start, m6, mem);
            if !m6.truth(allowed) {
                let m7 = lemma_trap_runs(
                    v6,
                    vaddr,
                    MemOp::Load,
                    width,
                    152,
                    w,
                    host,
                    start,
                    m6,
                    mem,
                );
                lemma_kept_on(v1, v6, m, m6, m7);
                m7
            } else {
                let m8 = lemma_value(v8, untag, 136, w, host, start, m6, mem);
                lemma_stays_in_page(a, width);
                let m9 = lemma_value(v9, read, 134, w, host, start, m8, mem);
                assert(kept(v6, m6, m9));
                lemma_kept_on(v1, v6, m, m6, m9);
                lemma_load_merges(
                    v10,
                    width,
                    value,
                    fallback.ok_block,
                    fallback.value->0,
                    w,
                    host,
                    start,
                    m9,
                    mem,
                )
            }
        }
    }
}

/// A block that none of the steps works on stays as it is.
proof fn lemma_ok_block_same(
    v1: IrView,
    v2: IrView,
    v3: IrView,
    v4: IrView,
    v5: IrView,
    v6: IrView,
    v7: IrView,
    v8: IrView,
    v9: IrView,
    v10: IrView,
    trap: Block,
    block: Block,
)
    requires
        block.index < v1.blocks.len(),
        block != v1.current,
        block != v2.current,
        block != v3.current,
        block != v4.current,
        block != v5.current,
        block != trap,
        block != v7.current,
        block != v8.current,
        block != v9.current,
        rest_same(v1, v2, v1.current),
        rest_same(v2, v3, v2.current),
        rest_same(v3, v4, v3.current),
        rest_same(v4, v5, v4.current),
        rest_same(v5, v6, v5.current),
        rest_same(v6, v7, trap),
        rest_same(v7, v8, v7.current),
        rest_same(v8, v9, v8.current),
        rest_same(v9, v10, v9.current),
    ensures
        same_code(v10.block(block), v1.block(block)),
{
    let i = block.index as int;
    assert(same_code(v2.blocks[i], v1.blocks[i]));
    assert(same_code(v3.blocks[i], v2.blocks[i]));
    assert(same_code(v4.blocks[i], v3.blocks[i]));
    assert(same_code(v5.blocks[i], v4.blocks[i]));
    assert(same_code(v6.blocks[i], v5.blocks[i]));
    assert(same_code(v7.blocks[i], v6.blocks[i]));
    assert(same_code(v8.blocks[i], v7.blocks[i]));
    assert(same_code(v9.blocks[i], v8.blocks[i]));
    assert(same_code(v10.blocks[i], v9.blocks[i]));
}

/// From the inlined load to the block that both ways lead to.
proof fn lemma_load_merges(
    v: IrView,
    width: IntWidth,
    inlined: SSAValue,
    ok_block: Block,
    fallback: SSAValue,
    w: IrView,
    host: Host,
    start: Flow,
    m: Machine,
    mem: HostMem,
) -> (r: Machine)
    requires
        open_at(v, 2),
        ok_block.index < v.blocks.len(),
        ok_block != v.current,
        !v.block(ok_block).terminated,
        w == v.merge_loads(width, inlined, ok_block, fallback).0,
        arrived(v, w, host, start, m, mem),
        inlined.index < v.types.len(),
        m.has_int(inlined),
    ensures
        kept(v, m, r),
        w.comes_to(host, start, entering(w.current, r, mem)),
        ({
            let param = v.merge_loads(width, inlined, ok_block, fallback).1;
            r.has_int(param) && r.number(param) == m.number(inlined)
        }),
{
    lemma_merge_keeps(v, width, inlined, ok_block, fallback, 2);
    let merge = Block { index: v.blocks.len() as u64 };
    let (v1, _) = v.create_block();
    let (v2, param) = v1.at(merge).add_parameter(merge, TypeFull::Int(width));
    let jump = JumpView { parameters: seq![inlined.index], target: merge };
    let at = v2.at(v.current);
    assert(at.terminate(v.current, TerminatorView::Br(jump)) == v2.terminate(
        v.current,
        TerminatorView::Br(jump),
    ).at(v.current));
    lemma_keeps_at(v2.terminate(v.current, TerminatorView::Br(jump)), v.current, w);
    assert(arrived(at, w, host, start, m, mem)) by {
        reveal(arrived);
    }
    lemma_jumps(at, jump, w, host, start, m, mem);
    Machine { env: m.env.insert(param.index, m.env[inlined.index]), ..m }
}

/// From the fallback to the block that both ways lead to, or out of the
/// function.
proof fn lemma_load_falls_back(
    v: IrView,
    vaddr: SSAValue,
    width: IntWidth,
    v10: IrView,
    w: IrView,
    value: SSAValue,
    host: Host,
    m: Machine,
    m1: Machine,
    mem: HostMem,
) -> (r: Machine)
    requires
        open_at(v, 200),
        can_load(v, host, m, mem, vaddr, width),
        kept(v.fallback(vaddr, VmAccessKind::Load { width }).0, m, m1),
        open_at(v10, 2),
        ({
            let (e, fallback) = v.fallback(vaddr, VmAccessKind::Load { width });
            &&& keeps(e, w)
            &&& w.comes_to(host, here(v, m, mem), entering(fallback.block, m1, mem))
            &&& same_code(v10.block(fallback.ok_block), e.block(fallback.ok_block))
            &&& fallback.ok_block.index < v10.blocks.len()
            &&& fallback.ok_block != v10.current
            &&& e.types.len() <= v10.types.len()
            &&& w == v10.merge_loads(width, value, fallback.ok_block, fallback.value->0).0
        }),
    ensures
        kept(v, m, r),
        ({
            let fallback = v.fallback(vaddr, VmAccessKind::Load { width }).1;
            let param = v10.merge_loads(width, value, fallback.ok_block, fallback.value->0).1;
            loads_through_host(v, host, m, mem, vaddr, width, w, param, r)
        }),
{
    let start = here(v, m, mem);
    let (e, fallback) = v.fallback(vaddr, VmAccessKind::Load { width });
    lemma_fallback_load_keeps(v, vaddr, width, 200);
    assert(kept(v, m, m1));
    assert(inputs(v, m1, vaddr));
    let scratch = scratch_of(v, mem);
    assert(host_numbers(m1, vaddr, scratch) =~= host_numbers(m, vaddr, scratch));
    let m2 = lemma_fallback_load_runs(v, vaddr, width, 200, w, host, start, m1, mem);
    lemma_kept_on(v, v, m, m1, m2);
    let (mem2, status) = called(
        host,
        HostCallback::Load(width),
        host_numbers(m, vaddr, scratch),
        mem,
    );
    if status == 0 {
        lemma_merge_keeps(v10, width, value, fallback.ok_block, fallback.value->0, 2);
        let merge = Block { index: v10.blocks.len() as u64 };
        let (u1, _) = v10.create_block();
        let (u2, param) = u1.at(merge).add_parameter(merge, TypeFull::Int(width));
        let first = TerminatorView::Br(JumpView { parameters: seq![value.index], target: merge });
        let jump = JumpView { parameters: seq![(fallback.value->0).index], target: merge };
        let u3 = u2.terminate(v10.current, first).at(fallback.ok_block);
        assert(u3.terminate(fallback.ok_block, TerminatorView::Br(jump)) == w.at(
            fallback.ok_block,
        ));
        lemma_keeps_self(w);
        lemma_keeps_at(w, fallback.ok_block, w);
        assert(arrived(u3, w, host, start, m2, mem2)) by {
            reveal(arrived);
        }
        lemma_jumps(u3, jump, w, host, start, m2, mem2);
        let r = Machine {
            env: m2.env.insert(param.index, m2.env[(fallback.value->0).index]),
            ..m2
        };
        assert(kept(v, m2, r));
        lemma_kept_on(v, v, m, m2, r);
        r
    } else {
        m2
    }
}

/// What the host part of a store changes.
proof fn lemma_host_store_keeps(v: IrView, vaddr: SSAValue, value: SSAValue, k: int)
    requires
        open_at(v, k),
        k >= 12,
    ensures
        ({
            let e = v.host_store(vaddr, value);
            &&& keeps(v, e)
            &&& open_at(e, k - 10)
            &&& v.blocks.len() <= e.current.index
            &&& v.types.len() <= e.types.len()
            &&& rest_same(v, e, v.current)
            &&& e.block(v.current).parameters == v.block(v.current).parameters
        }),
{
    let width = v.width(value);
    let (func, signature) = spec_store_callback(width, false);
    let (v1, status) = v.call_host(func, signature, host_args(vaddr, value));
    lemma_call_keeps(v, func, signature, host_args(vaddr, value), k);
    let reason = HaltReason::spec_memory_trap(width.spec_bytes() as u8);
    let (v2, fail) = v1.halt_block(reason);
    lemma_halt_keeps(v1, reason, k - 4);
    let (w, _) = v2.assert_or_jmp_to(status, false, fail);
    lemma_branch_keeps(v2, status, false, fail, k - 8);
    lemma_keeps_on(v1, v2, w);
    lemma_keeps_on(v, v1, w);
}

/// Running the host part of a store.
#[verifier::spinoff_prover]
#[verifier::rlimit(60)]
proof fn lemma_host_store_runs(
    v: IrView,
    vaddr: SSAValue,
    value: SSAValue,
    k: int,
    w: IrView,
    host: Host,
    start: Flow,
    m: Machine,
    mem: HostMem,
) -> (r: Machine)
    requires
        open_at(v, k),
        k >= 12,
        inputs(v, m, vaddr),
        m.has_int(value),
        keeps(v.host_store(vaddr, value), w),
        arrived(v, w, host, start, m, mem),
    ensures
        kept(v, m, r),
        ({
            let e = v.host_store(vaddr, value);
            let width = v.width(value);
            let (mem2, status) = called(
                host,
                HostCallback::Store(width),
                host_numbers(m, vaddr, m.number(value)),
                mem,
            );
            if status == 0 {
                arrived(e, w, host, start, r, mem2)
            } else {
                w.comes_to(host, start, trapped(width, r, mem2))
            }
        }),
{
    let width = v.width(value);
    let (func, signature) = spec_store_callback(width, false);
    let (v1, status) = v.call_host(func, signature, host_args(vaddr, value));
    lemma_call_keeps(v, func, signature, host_args(vaddr, value), k);
    let reason = HaltReason::spec_memory_trap(width.spec_bytes() as u8);
    let (v2, fail) = v1.halt_block(reason);
    lemma_halt_keeps(v1, reason, k - 4);
    let (v3, _) = v2.assert_or_jmp_to(status, false, fail);
    lemma_branch_keeps(v2, status, false, fail, k - 8);
    lemma_keeps_on(v2, v3, w);
    lemma_keeps_on(v1, v2, w);
    let m1 = lemma_call_runs(v, func, signature, vaddr, value, k, w, host, start, m, mem);
    let (mem2, code) = called(host, func, host_numbers(m, vaddr, m.number(value)), mem);
    assert(m1.number(status) == code);
    assert(kept(v, m, m1));
    assert(arrived(v2, w, host, start, m1, mem2)) by {
        reveal(arrived);
        assert(same_code(
            v2.blocks[v1.current.index as int],
            v1.blocks[v1.current.index as int],
        ));
    }
    lemma_branch(v2, status, false, fail, k - 8, w, host, start, m1, mem2);
    if code == 0 {
        m1
    } else {
        let m2 = lemma_halt_runs(v1, reason, k - 4, w, host, start, m1, mem2);
        lemma_kept_on(v, v1, m, m1, m2);
        m2
    }
}

/// What the host part of a store in a block of its own changes.
proof fn lemma_fallback_store_keeps(v: IrView, vaddr: SSAValue, value: SSAValue, k: int)
    requires
        open_at(v, k),
        k >= 20,
    ensures
        ({
            let (e, fallback) = v.fallback(vaddr, VmAccessKind::Store { value });
            &&& keeps(v, e)
            &&& open_at(e, k - 12)
            &&& e.current == v.current
            &&& fallback.block.index == v.blocks.len()
            &&& v.blocks.len() < fallback.ok_block.index < e.blocks.len()
            &&& e.block(fallback.block).parameters.len() == 0
            &&& !e.block(fallback.ok_block).terminated
            &&& v.types.len() <= e.types.len()
            &&& forall|i: int|
                0 <= i < v.blocks.len() ==> same_code(#[trigger] e.blocks[i], v.blocks[i])
        }),
{
    let (v1, block) = v.create_block();
    lemma_create_keeps(v);
    let u1 = v1.at(block);
    lemma_keeps_at(v1, block, v);
    let v2 = u1.mark_cold(block);
    lemma_cold_keeps(u1, block);
    assert(same_code(v2.blocks[block.index as int], BlockView::blank()));
    assert(open_at(v2, k - 2));
    let v3 = v2.host_store(vaddr, value);
    lemma_host_store_keeps(v2, vaddr, value, k - 2);
    let w = v3.at(v.current);
    lemma_keeps_at(v3, v.current, v);
    lemma_keeps_on(v, u1, v2);
    lemma_keeps_on(v, v2, v3);
    assert forall|i: int| 0 <= i < v.blocks.len() implies same_code(
        #[trigger] w.blocks[i],
        v.blocks[i],
    ) by {
        assert(same_code(v2.blocks[i], u1.blocks[i]));
        assert(same_code(v3.blocks[i], v2.blocks[i]));
    }
    assert(same_code(w.blocks[v.current.index as int], v.blocks[v.current.index as int]));
}

/// Running the host part of a store from the beginning of its block.
proof fn lemma_fallback_store_runs(
    v: IrView,
    vaddr: SSAValue,
    value: SSAValue,
    k: int,
    w: IrView,
    host: Host,
    start: Flow,
    m: Machine,
    mem: HostMem,
) -> (r: Machine)
    requires
        open_at(v, k),
        k >= 20,
        inputs(v, m, vaddr),
        m.has_int(value),
        keeps(v.fallback(vaddr, VmAccessKind::Store { value }).0, w),
        w.comes_to(
            host,
            start,
            entering(v.fallback(vaddr, VmAccessKind::Store { value }).1.block, m, mem),
        ),
    ensures
        kept(v, m, r),
        ({
            let (e, fallback) = v.fallback(vaddr, VmAccessKind::Store { value });
            let width = v.width(value);
            let (mem2, status) = called(
                host,
                HostCallback::Store(width),
                host_numbers(m, vaddr, m.number(value)),
                mem,
            );
            if status == 0 {
                arrived(e.at(fallback.ok_block), w, host, start, r, mem2)
            } else {
                w.comes_to(host, start, trapped(width, r, mem2))
            }
        }),
{
    let (v1, block) = v.create_block();
    let u1 = v1.at(block);
    let v2 = u1.mark_cold(block);
    lemma_cold_keeps(u1, block);
    assert(same_code(v2.blocks[block.index as int], BlockView::blank()));
    let v3 = v2.host_store(vaddr, value);
    lemma_host_store_keeps(v2, vaddr, value, k - 2);
    lemma_keeps_at(v3, v.current, w);
    assert(arrived(v2, w, host, start, m, mem)) by {
        reveal(arrived);
    }
    assert(inputs(v2, m, vaddr));
    let r = lemma_host_store_runs(v2, vaddr, value, k - 2, w, host, start, m, mem);
    assert(v3.at(v.current).at(v3.current) == v3);
    r
}

/// What noting a store changes.
proof fn lemma_note_keeps(v: IrView, tagged: SSAValue, entry: SSAValue, k: int)
    requires
        open_at(v, k),
        k >= 20,
    ensures
        ({
            let (e, continuation) = v.note_dirty(tagged, entry);
            &&& keeps(v, e)
            &&& open_at(e, k - 12)
            &&& e.current == continuation
            &&& v.blocks.len() < continuation.index < e.blocks.len()
            &&& e.block(continuation) == BlockView::blank()
            &&& rest_same(v, e, v.current)
        }),
{
    let test = StmtKind::HasTag { ptr: tagged, tag_bits: TAG_MUST_DIRTY };
    let (v1, must_dirty) = v.emit1(test);
    lemma_emit_keeps(v, test, k);
    let (v2, dirty) = v1.create_block();
    lemma_create_keeps(v1);
    let (v3, continuation) = v2.assert_or_jmp_to(must_dirty, false, dirty);
    lemma_branch_keeps(v2, must_dirty, false, dirty, k - 4);
    let u3 = v3.at(dirty);
    lemma_keeps_at(v3, dirty, v);
    assert(same_code(u3.blocks[dirty.index as int], BlockView::blank()));
    let read = free_load(
        LoadType::HostPtr(AliasRegion::PageFlags),
        entry,
        TLB_PAGE_FLAGS_OFFSET,
    );
    let (v4, flags) = u3.emit1(read);
    lemma_emit_keeps(u3, read, k - 6);
    let set = StmtKind::SetPageDirtyFlag(flags);
    let v5 = v4.emit(set);
    lemma_emit_keeps(v4, set, k - 8);
    let end = TerminatorView::Br(edge(continuation));
    let v6 = v5.terminate(dirty, end);
    lemma_terminate_keeps(v5, dirty, end);
    lemma_keeps_at(v6, continuation, v);
    lemma_keeps_on(v, v1, v2);
    lemma_keeps_on(v, v2, v3);
    lemma_keeps_on(v, u3, v4);
    lemma_keeps_on(v, v4, v5);
    lemma_keeps_on(v, v5, v6);
    assert forall|i: int| 0 <= i < v.blocks.len() && i != v.current.index implies same_code(
        #[trigger] v6.blocks[i],
        v.blocks[i],
    ) by {
        assert(same_code(v1.blocks[i], v.blocks[i]));
        assert(v2.blocks[i] == v1.blocks[i]);
        assert(same_code(v3.blocks[i], v2.blocks[i]));
        assert(same_code(v4.blocks[i], u3.blocks[i]));
        assert(same_code(v5.blocks[i], v4.blocks[i]));
    }
    let c = continuation.index as int;
    assert(same_code(v4.blocks[c], u3.blocks[c]) && same_code(v5.blocks[c], v4.blocks[c])
        && same_code(v6.blocks[c], v5.blocks[c]));
    assert(u3.blocks[c] == BlockView::blank());
    lemma_blank_stays(v, tagged, entry, k);
}

/// The block in which execution goes on after a store is blank, and not cold.
proof fn lemma_blank_stays(v: IrView, tagged: SSAValue, entry: SSAValue, k: int)
    requires
        open_at(v, k),
        k >= 20,
    ensures
        v.note_dirty(tagged, entry).0.block(v.note_dirty(tagged, entry).1) == BlockView::blank(),
{
    reveal(IrView::emit);
}

/// The memory once a store to a page has been noted, if the page asks for it.
pub open spec fn store_noted(mem: HostMem, tagged: u64, flags: u64) -> HostMem {
    if tagged & (TAG_MUST_DIRTY as u64) != 0 {
        HostMem { noted: mem.noted.insert(flags), ..mem }
    } else {
        mem
    }
}

/// Running the part that notes a store.
#[verifier::spinoff_prover]
#[verifier::rlimit(100)]
proof fn lemma_note_runs(
    v: IrView,
    tagged: SSAValue,
    entry: SSAValue,
    k: int,
    w: IrView,
    host: Host,
    start: Flow,
    m: Machine,
    mem: HostMem,
) -> (r: Machine)
    requires
        open_at(v, k),
        k >= 20,
        v.has(tagged),
        v.has(entry),
        m.has_int(tagged),
        m.has_int(entry),
        entry != Arg::ExecState.spec_value(),
        mem.cells.contains_key(m.number(entry) + TLB_PAGE_FLAGS_OFFSET),
        keeps(v.note_dirty(tagged, entry).0, w),
        arrived(v, w, host, start, m, mem),
    ensures
        kept(v, m, r),
        w.comes_to(
            host,
            start,
            entering(
                v.note_dirty(tagged, entry).1,
                r,
                store_noted(
                    mem,
                    m.number(tagged),
                    mem.cells[m.number(entry) + TLB_PAGE_FLAGS_OFFSET],
                ),
            ),
        ),
{
    let test = StmtKind::HasTag { ptr: tagged, tag_bits: TAG_MUST_DIRTY };
    let (v1, must_dirty) = v.emit1(test);
    lemma_emit_keeps(v, test, k);
    let (v2, dirty) = v1.create_block();
    lemma_create_keeps(v1);
    let (v3, continuation) = v2.assert_or_jmp_to(must_dirty, false, dirty);
    lemma_branch_keeps(v2, must_dirty, false, dirty, k - 4);
    let u3 = v3.at(dirty);
    assert(same_code(u3.blocks[dirty.index as int], BlockView::blank()));
    let read = free_load(
        LoadType::HostPtr(AliasRegion::PageFlags),
        entry,
        TLB_PAGE_FLAGS_OFFSET,
    );
    let (v4, flags) = u3.emit1(read);
    lemma_emit_keeps(u3, read, k - 6);
    let set = StmtKind::SetPageDirtyFlag(flags);
    let v5 = v4.emit(set);
    lemma_emit_keeps(v4, set, k - 8);
    let end = TerminatorView::Br(edge(continuation));
    let v6 = v5.terminate(dirty, end);
    lemma_terminate_keeps(v5, dirty, end);
    lemma_keeps_at(v6, continuation, w);
    lemma_keeps_on(v5, v6, w);
    lemma_keeps_on(v4, v5, w);
    lemma_keeps_on(u3, v4, w);
    lemma_keeps_at(v3, dirty, w);
    lemma_keeps_on(v2, v3, w);
    lemma_keeps_on(v1, v2, w);
    let m1 = lemma_value(v, test, k, w, host, start, m, mem);
    assert(arrived(v2, w, host, start, m1, mem)) by {
        reveal(arrived);
    }
    lemma_branch(v2, must_dirty, false, dirty, k - 4, w, host, start, m1, mem);
    if !m1.truth(must_dirty) {
        assert(w.comes_to(host, start, entering(continuation, m1, mem))) by {
            reveal(arrived);
        }
        m1
    } else {
        assert(arrived(u3, w, host, start, m1, mem)) by {
            reveal(arrived);
        }
        let m2 = lemma_value(u3, read, k - 6, w, host, start, m1, mem);
        let (n3, mem3) = lemma_runs(v4, set, k - 8, w, host, start, m2, mem);
        assert(n3 == m2);
        assert(block_kept(v3.block(continuation), w.block(continuation))) by {
            reveal(keeps);
        }
        lemma_jumps(v5, edge(continuation), w, host, start, m2, mem3);
        m2
    }
}

/// What an emitted store to guest memory needs to run.
pub open spec fn can_store(
    v: IrView,
    m: Machine,
    mem: HostMem,
    vaddr: SSAValue,
    value: SSAValue,
) -> bool {
    &&& inputs(v, m, vaddr)
    &&& v.has(value)
    &&& v.ty(value) is Int
    &&& m.has_int(value)
    &&& has_entry(mem, entry_of(m.number(Arg::Tlb.spec_value()), m.number(vaddr)))
    &&& inlined(m, mem, vaddr, v.width(value)) && tagged_ptr(m, mem, vaddr) & (TAG_WRITE as u64)
        != 0 ==> {
        &&& mem.pages.contains_key(page_ptr(m, mem, vaddr))
        &&& mem.pages[page_ptr(m, mem, vaddr)].len() == 4096
    }
}

/// How a run of a store goes on through the host.
pub open spec fn stores_through_host(
    v: IrView,
    host: Host,
    m: Machine,
    mem: HostMem,
    vaddr: SSAValue,
    value: SSAValue,
    w: IrView,
    r: Machine,
) -> bool {
    let width = v.width(value);
    let (mem2, status) = called(
        host,
        HostCallback::Store(width),
        host_numbers(m, vaddr, m.number(value)),
        mem,
    );
    if status == 0 {
        w.comes_to(host, here(v, m, mem), entering(w.current, r, mem2))
    } else {
        w.comes_to(host, here(v, m, mem), trapped(width, r, mem2))
    }
}

/// The memory once an inlined store has been made.
pub open spec fn stored_inline(
    m: Machine,
    mem: HostMem,
    vaddr: SSAValue,
    value: SSAValue,
    width: IntWidth,
) -> HostMem {
    let page = page_ptr(m, mem, vaddr);
    let entry = entry_of(m.number(Arg::Tlb.spec_value()), m.number(vaddr));
    store_noted(
        HostMem {
            pages: mem.pages.insert(
                page,
                splice(
                    mem.pages[page],
                    m.number(vaddr) as int % 4096,
                    to_le(m.number(value) as nat, width.spec_bytes() as nat),
                ),
            ),
            ..mem
        },
        tagged_ptr(m, mem, vaddr),
        mem.cells[entry + TLB_PAGE_FLAGS_OFFSET],
    )
}

/// From the fallback of a store to where execution goes on, or out of the
/// function.
proof fn lemma_store_falls_back(
    v: IrView,
    vaddr: SSAValue,
    value: SSAValue,
    v11: IrView,
    w: IrView,
    host: Host,
    m: Machine,
    m1: Machine,
    mem: HostMem,
) -> (r: Machine)
    requires
        open_at(v, 200),
        can_store(v, m, mem, vaddr, value),
        kept(v.fallback(vaddr, VmAccessKind::Store { value }).0, m, m1),
        ({
            let (e, fallback) = v.fallback(vaddr, VmAccessKind::Store { value });
            &&& keeps(e, w)
            &&& w.comes_to(host, here(v, m, mem), entering(fallback.block, m1, mem))
            &&& same_code(v11.block(fallback.ok_block), e.block(fallback.ok_block))
            &&& fallback.ok_block.index < v11.blocks.len()
            &&& fallback.ok_block != v11.current
            &&& v11.current.index < v11.blocks.len()
            &&& v11.block(v11.current) == BlockView::blank()
            &&& w == v11.terminate(fallback.ok_block, TerminatorView::Br(edge(v11.current)))
        }),
    ensures
        kept(v, m, r),
        stores_through_host(v, host, m, mem, vaddr, value, w, r),
{
    let start = here(v, m, mem);
    let (e, fallback) = v.fallback(vaddr, VmAccessKind::Store { value });
    lemma_fallback_store_keeps(v, vaddr, value, 200);
    assert(kept(v, m, m1));
    assert(inputs(v, m1, vaddr));
    assert(host_numbers(m1, vaddr, m1.number(value)) =~= host_numbers(m, vaddr, m.number(value)));
    let m2 = lemma_fallback_store_runs(v, vaddr, value, 200, w, host, start, m1, mem);
    lemma_kept_on(v, v, m, m1, m2);
    let (mem2, status) = called(
        host,
        HostCallback::Store(v.width(value)),
        host_numbers(m, vaddr, m.number(value)),
        mem,
    );
    if status == 0 {
        let u = v11.at(fallback.ok_block);
        let jump = edge(v11.current);
        assert(u.terminate(fallback.ok_block, TerminatorView::Br(jump)) == w.at(
            fallback.ok_block,
        ));
        lemma_keeps_self(w);
        lemma_keeps_at(w, fallback.ok_block, w);
        assert(arrived(u, w, host, start, m2, mem2)) by {
            reveal(arrived);
        }
        lemma_jumps(u, jump, w, host, start, m2, mem2);
    }
    m2
}

/// What a store to guest memory does when it runs. If the TLB knows the page
/// and the address is aligned, the value is written to the page that the
/// entry points to, and then noted if the page asks for it, unless the entry
/// does not allow it: that records a fault at the address and leaves with a
/// memory trap. Otherwise the host is asked; if it has failed, the run leaves
/// with a memory trap. The guest CPU's state stays as it was in every case.
#[verifier::spinoff_prover]
#[verifier::rlimit(100)]
pub proof fn law_vm_store(
    v: IrView,
    vaddr: SSAValue,
    value: SSAValue,
    seq_cst: bool,
    host: Host,
    m: Machine,
    mem: HostMem,
) -> (r: Machine)
    requires
        open_at(v, 200),
        can_store(v, m, mem, vaddr, value),
    ensures
        kept(v, m, r),
        ({
            let (w, _) = v.vm_access(vaddr, VmAccessKind::Store { value }, seq_cst);
            let width = v.width(value);
            if !inlined(m, mem, vaddr, width) {
                stores_through_host(v, host, m, mem, vaddr, value, w, r)
            } else if tagged_ptr(m, mem, vaddr) & (TAG_WRITE as u64) == 0 {
                w.comes_to(
                    host,
                    here(v, m, mem),
                    trapped(
                        width,
                        r,
                        fault_recorded(
                            mem,
                            m.number(Arg::ExecContext.spec_value()),
                            m.number(vaddr),
                            MemOp::Store,
                        ),
                    ),
                )
            } else {
                w.comes_to(
                    host,
                    here(v, m, mem),
                    entering(w.current, r, stored_inline(m, mem, vaddr, value, width)),
                )
            }
        }),
{
    let access = VmAccessKind::Store { value };
    let width = v.width(value);
    let start = here(v, m, mem);
    let a = m.number(vaddr);
    let (v1, fallback) = v.fallback(vaddr, access);
    lemma_fallback_store_keeps(v, vaddr, value, 200);
    let (v2, entry) = v1.tlb_probe(vaddr, fallback.block);
    lemma_probe_keeps(v1, vaddr, fallback.block, 182);
    let read_tagged = free_load(
        LoadType::HostPtr(AliasRegion::VirtualMemory),
        entry,
        TLB_TAGGED_PTR_OFFSET,
    );
    let (v3, tagged) = v2.emit1(read_tagged);
    lemma_emit_keeps(v2, read_tagged, 164);
    let mask = StmtKind::BitwiseImm { op: BitwiseOp::And, lhs: vaddr, rhs: PAGE_OFFSET_MASK };
    let (v4, offset) = v3.emit1(mask);
    lemma_emit_keeps(v3, mask, 162);
    let v5 = v4.check_alignment(vaddr, width, fallback.block);
    lemma_alignment_keeps(v4, vaddr, width, fallback.block, 160);
    let test = StmtKind::HasTag { ptr: tagged, tag_bits: TAG_WRITE };
    let (v6, allowed) = v5.emit1(test);
    lemma_emit_keeps(v5, test, 154);
    let (v7, trap) = v6.trap_block(vaddr, MemOp::Store, width);
    lemma_trap_keeps(v6, vaddr, MemOp::Store, width, 152);
    let (v8, _) = v7.assert_or_jmp_to(allowed, true, trap);
    lemma_branch_keeps(v7, allowed, true, trap, 138);
    let untag = StmtKind::Untag { ptr: tagged, tag_bits: TAG_ALL };
    let (v9, page) = v8.emit1(untag);
    lemma_emit_keeps(v8, untag, 136);
    let write = StmtKind::VMStoreRaw { aligned_page_ptr: page, page_offset: offset, value, seq_cst };
    let v10 = v9.emit(write);
    lemma_emit_keeps(v9, write, 134);
    let (v11, continuation) = v10.note_dirty(tagged, entry);
    lemma_note_keeps(v10, tagged, entry, 132);
    lemma_ok_block_same(v1, v2, v3, v4, v5, v6, v7, v8, v9, v10, trap, fallback.ok_block);
    assert(same_code(
        v11.blocks[fallback.ok_block.index as int],
        v10.blocks[fallback.ok_block.index as int],
    ));
    let end = TerminatorView::Br(edge(continuation));
    let w = v11.terminate(fallback.ok_block, end);
    lemma_terminate_keeps(v11, fallback.ok_block, end);
    lemma_keeps_on(v10, v11, w);
    lemma_keeps_on(v9, v10, w);
    lemma_keeps_on(v8, v9, w);
    lemma_keeps_on(v7, v8, w);
    lemma_keeps_on(v6, v7, w);
    lemma_keeps_on(v5, v6, w);
    lemma_keeps_on(v4, v5, w);
    lemma_keeps_on(v3, v4, w);
    lemma_keeps_on(v2, v3, w);
    lemma_keeps_on(v1, v2, w);
    assert(v.vm_access(vaddr, access, seq_cst) == (w, None::<SSAValue>));
    assert(arrived(v1, w, host, start, m, mem)) by {
        reveal(arrived);
        lemma_comes_self(w, host, start);
    }
    let at = entry_of(m.number(Arg::Tlb.spec_value()), a);
    assert(v.types.is_prefix_of(v1.types) && v1.types.is_prefix_of(w.types)) by {
        reveal(keeps);
    }
    assert(inputs(v1, m, vaddr));
    assert(w.width(value) == width);
    let m2 = lemma_probe(v1, vaddr, fallback.block, 182, w, host, start, m, mem);
    if !knows(mem, at, m.number(Arg::IoMMUIdentifier.spec_value()), a) {
        lemma_store_falls_back(v, vaddr, value, v11, w, host, m, m2, mem)
    } else {
        let m3 = lemma_value(v2, read_tagged, 164, w, host, start, m2, mem);
        let m4 = lemma_value(v3, mask, 162, w, host, start, m3, mem);
        assert(kept(v1, m, m4));
        lemma_low_bits(a);
        assert(m4.number(offset) == a % 4096);
        let m5 = lemma_alignment_runs(
            v4,
            vaddr,
            width,
            fallback.block,
            160,
            w,
            host,
            start,
            m4,
            mem,
        );
        lemma_kept_on(v1, v4, m, m4, m5);
        if a as int % width.spec_bytes() != 0 {
            lemma_store_falls_back(v, vaddr, value, v11, w, host, m, m5, mem)
        } else {
            assert(m4.env.contains_key(tagged.index) && m4.env.contains_key(offset.index)
                && m4.env.contains_key(entry.index));
            assert(m5.has_int(tagged) && m5.number(tagged) == tagged_ptr(m, mem, vaddr));
            assert(m5.has_int(offset) && m5.number(offset) == a % 4096);
            assert(m5.has_int(entry) && m5.number(entry) == at);
            let m6 = lemma_value(v5, test, 154, w, host, start, m5, mem);
            assert(kept(v5, m5, m6));
            lemma_kept_on(v1, v5, m, m5, m6);
            assert(arrived(v7, w, host, start, m6, mem)) by {
                reveal(arrived);
                assert(same_code(
                    v7.blocks[v6.current.index as int],
                    v6.blocks[v6.current.index as int],
                ));
            }
            lemma_branch(v7, allowed, true, trap, 138, w, host, start, m6, mem);
            if !m6.truth(allowed) {
                let m7 = lemma_trap_runs(
                    v6,
                    vaddr,
                    MemOp::Store,
                    width,
                    152,
                    w,
                    host,
                    start,
                    m6,
                    mem,
                );
                lemma_kept_on(v1, v6, m, m6, m7);
                m7
            } else {
                let m8 = lemma_value(v8, untag, 136, w, host, start, m6, mem);
                assert(kept(v6, m6, m8));
                lemma_kept_on(v1, v6, m, m6, m8);
                lemma_stays_in_page(a, width);
                assert(m.env.contains_key(value.index));
                let (n9, mem9) = lemma_runs(v9, write, 134, w, host, start, m8, mem);
                assert(n9 == m8);
                let m10 = lemma_note_runs(
                    v10,
                    tagged,
                    entry,
                    132,
                    w,
                    host,
                    start,
                    m8,
                    mem9,
                );
                lemma_kept_on(v1, v10, m, m8, m10);
                m10
            }
        }
    }
}

/// What an exclusive load does when it runs: the host is asked, and the value
/// is what it has left; if it has failed, the run leaves with a memory trap.
pub proof fn law_ldrex(
    v: IrView,
    vaddr: SSAValue,
    width: IntWidth,
    host: Host,
    m: Machine,
    mem: HostMem,
) -> (r: Machine)
    requires
        open_at(v, 200),
        inputs(v, m, vaddr),
        mem.stack.contains_key((v.with_scratch().scratch_space->0).index),
        delivers(
            host,
            width,
            true,
            host_numbers(m, vaddr, scratch_of(v, mem)),
            scratch_of(v, mem),
            mem,
        ),
    ensures
        kept(v, m, r),
        ({
            let (w, value) = v.host_load(vaddr, width, true);
            let scratch = scratch_of(v, mem);
            let (mem2, status) = called(
                host,
                HostCallback::LoadExclusive(width),
                host_numbers(m, vaddr, scratch),
                mem,
            );
            if status == 0 {
                &&& w.comes_to(host, here(v, m, mem), here(w, r, mem2))
                &&& r.has_int(value)
                &&& r.number(value) == width.wrap(mem2.cells[scratch as int] as int)
            } else {
                w.comes_to(host, here(v, m, mem), trapped(width, r, mem2))
            }
        }),
{
    let w = v.host_load(vaddr, width, true).0;
    let start = here(v, m, mem);
    lemma_keeps_self(w);
    reveal(arrived);
    lemma_comes_self(w, host, start);
    lemma_host_load_runs(v, vaddr, width, true, 200, w, host, start, m, mem)
}

/// What an exclusive store does when it runs: the host is asked, and its
/// status is the result; if the access has faulted, the run leaves with a
/// memory trap.
#[verifier::spinoff_prover]
#[verifier::rlimit(60)]
pub proof fn law_strex(
    v: IrView,
    vaddr: SSAValue,
    value: SSAValue,
    host: Host,
    m: Machine,
    mem: HostMem,
) -> (r: Machine)
    requires
        open_at(v, 200),
        inputs(v, m, vaddr),
        m.has_int(value),
    ensures
        kept(v, m, r),
        ({
            let (w, result) = v.strex(vaddr, value);
            let width = v.width(value);
            let (mem2, status) = called(
                host,
                HostCallback::StoreExclusive(width),
                host_numbers(m, vaddr, m.number(value)),
                mem,
            );
            if status == StrexStatus::Fault.spec_code() {
                w.comes_to(host, here(v, m, mem), trapped(width, r, mem2))
            } else {
                &&& w.comes_to(host, here(v, m, mem), here(w, r, mem2))
                &&& r.has_int(result)
                &&& r.number(result) == status
            }
        }),
{
    let width = v.width(value);
    let start = here(v, m, mem);
    let (func, signature) = spec_store_callback(width, true);
    let (v1, status) = v.call_host(func, signature, host_args(vaddr, value));
    lemma_call_keeps(v, func, signature, host_args(vaddr, value), 200);
    let test = equals(status, StrexStatus::Fault.spec_code() as u64);
    let (v2, failed) = v1.emit1(test);
    lemma_emit_keeps(v1, test, 196);
    let reason = HaltReason::spec_memory_trap(width.spec_bytes() as u8);
    let (v3, fail) = v2.halt_block(reason);
    lemma_halt_keeps(v2, reason, 194);
    let (w, _) = v3.assert_or_jmp_to(failed, false, fail);
    lemma_branch_keeps(v3, failed, false, fail, 190);
    lemma_keeps_self(w);
    lemma_keeps_on(v2, v3, w);
    lemma_keeps_on(v1, v2, w);
    assert(arrived(v, w, host, start, m, mem)) by {
        reveal(arrived);
        lemma_comes_self(w, host, start);
    }
    let m1 = lemma_call_runs(v, func, signature, vaddr, value, 200, w, host, start, m, mem);
    let (mem2, code) = called(host, func, host_numbers(m, vaddr, m.number(value)), mem);
    assert(v1.types.len() == v.types.len() + 1) by {
        reveal(IrView::emit);
    }
    let m2 = lemma_value(v1, test, 196, w, host, start, m1, mem2);
    assert(kept(v, m, m2));
    assert(arrived(v3, w, host, start, m2, mem2)) by {
        reveal(arrived);
        assert(same_code(
            v3.blocks[v2.current.index as int],
            v2.blocks[v2.current.index as int],
        ));
    }
    lemma_branch(v3, failed, false, fail, 190, w, host, start, m2, mem2);
    if code == StrexStatus::Fault.spec_code() {
        let m3 = lemma_halt_runs(v2, reason, 194, w, host, start, m2, mem2);
        lemma_kept_on(v, v2, m, m2, m3);
        m3
    } else {
        assert(w.comes_to(host, start, here(w, m2, mem2))) by {
            reveal(arrived);
        }
        m2
    }
}

} // verus!
