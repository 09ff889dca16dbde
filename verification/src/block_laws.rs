//! Lowered statements do what the statements of the IR do.
//!
//! The lowered code runs on the memory that the IR runs on; pointers have 64
//! bits.
use vstd::prelude::*;
use vstd::arithmetic::power2::{lemma_pow2_pos, pow2};
use crate::ir::execution::{displaced, Host, HostMem};
use crate::ir::layout::PAGE_DIRTY_FLAG;
use crate::ir::model::{IrView, StmtView};
use crate::ir::semantics::{bitwise, overflowing, overflows, shifted, truncated_div, Machine, Val};
use crate::ir::types::{
    AliasRegion, Arg, ArithBinOp, BitwiseOp, CallbackSignature, CallArgs, HostCallback, IntCmp,
    IntWidth, LoadType, OverflowingBinOp, SSAValue, ShiftOp, StmtKind, TypeFull,
};
use crate::lowering::{
    guest_flags, host_flags, operands, spec_clif_ty, spec_int_ty, ClifBinary, ClifInst, ClifList,
    ClifOp, ClifRmw, ClifTy, LowerView,
};
use crate::lowering_laws::{
    byte_of, clif_run, clif_step, crisp, is_pure, law_lowering_keeps_meaning, new_insts, represents,
    stands_for, tag_test, tags_apart,
};
use crate::memops::{le_value, lemma_le_value_bound, lemma_pow256_values, to_le, window};
use crate::page_store::splice;

verus! {

/// Where lowered code finds things: the value that holds the pointer to the
/// guest CPU's state, and the functions of the host.
pub struct Image {
    pub exec_state: u64,
    pub address: spec_fn(HostCallback) -> u64,
    pub function: spec_fn(u64) -> HostCallback,
}

impl Image {
    /// The address of a function leads to it.
    pub open spec fn linked(self) -> bool {
        forall|func: HostCallback| (self.function)(#[trigger] (self.address)(func)) == func
    }
}

/// The values that lowered code has computed, the guest CPU's state, and the
/// rest of memory.
#[verifier::ext_equal]
pub struct ClifState {
    pub vals: Map<u64, u64>,
    pub state: Map<usize, u64>,
    pub mem: HostMem,
}

impl ClifState {
    pub open spec fn set(self, result: u64, value: u64) -> ClifState {
        ClifState { vals: self.vals.insert(result, value), ..self }
    }
}

/// What an instruction does, if it has a meaning.
pub open spec fn clif_do(
    image: Image,
    host: Host,
    types: Seq<ClifTy>,
    lists: Seq<Seq<u64>>,
    inst: ClifInst,
    c: ClifState,
) -> Option<ClifState> {
    match inst.op {
        ClifOp::FuncAddr { func } => Some(c.set(inst.result, (image.address)(func))),
        ClifOp::Load { ty, flags: _, base, offset } => if base == image.exec_state {
            if c.state.contains_key(offset as usize) {
                Some(c.set(inst.result, ty.width().wrap(c.state[offset as usize] as int)))
            } else {
                None
            }
        } else if c.mem.cells.contains_key(displaced(c.vals[base], offset as int)) {
            let cell = c.mem.cells[displaced(c.vals[base], offset as int)];
            Some(c.set(inst.result, ty.width().wrap(cell as int)))
        } else {
            None
        },
        ClifOp::Store { flags: _, value, base, offset } => if base == image.exec_state {
            Some(ClifState { state: c.state.insert(offset as usize, c.vals[value]), ..c })
        } else {
            let cells = c.mem.cells.insert(
                displaced(c.vals[base], offset as int),
                c.vals[value],
            );
            Some(ClifState { mem: HostMem { cells, ..c.mem }, ..c })
        },
        ClifOp::StackAddr { slot } => if c.mem.stack.contains_key(slot) {
            Some(c.set(inst.result, c.mem.stack[slot]))
        } else {
            None
        },
        ClifOp::Uextend { ty: _, value } => Some(c.set(inst.result, c.vals[value])),
        ClifOp::Ireduce { ty, value } => Some(
            c.set(inst.result, ty.width().wrap(c.vals[value] as int)),
        ),
        ClifOp::CallIndirect { signature, callee, args } => {
            let items = lists[args.index as int];
            let numbers = Seq::new(items.len(), |i: int| c.vals[items[i]]);
            let (after, status) = host((image.function)(c.vals[callee]), numbers, c.mem);
            let called = ClifState { mem: HostMem { stack: c.mem.stack, ..after }, ..c };
            Some(
                match signature.spec_ret() {
                    Some(_) => called.set(inst.result, status),
                    None => called,
                },
            )
        },
        ClifOp::AtomicLoad { ty, flags, ptr } => if flags.region == AliasRegion::HaltReason {
            Some(ClifState { mem: c.mem.looked(), ..c.set(inst.result, c.mem.halt()) })
        } else {
            let page = page_at(c.vals[ptr]);
            let offset = c.vals[ptr] as int % 4096;
            if flags.region == AliasRegion::VirtualMemory && c.mem.pages.contains_key(page)
                && offset + ty.width().spec_bytes() <= c.mem.pages[page].len() {
                let bytes = window(c.mem.pages[page], offset, ty.width().spec_bytes());
                Some(c.set(inst.result, le_value(bytes) as u64))
            } else {
                None
            }
        },
        ClifOp::AtomicStore { flags, value, ptr } => {
            let page = page_at(c.vals[ptr]);
            let offset = c.vals[ptr] as int % 4096;
            let bytes = types[value as int].width().spec_bytes();
            if flags.region == AliasRegion::VirtualMemory && c.mem.pages.contains_key(page)
                && offset + bytes <= c.mem.pages[page].len() {
                let data = to_le(c.vals[value] as nat, bytes as nat);
                let pages = c.mem.pages.insert(page, splice(c.mem.pages[page], offset, data));
                Some(ClifState { mem: HostMem { pages, ..c.mem }, ..c })
            } else {
                None
            }
        },
        // what the page flags were before is not looked at
        ClifOp::AtomicRmw { ty: _, flags, op, ptr, value } => if op == ClifRmw::Or
            && flags.region == AliasRegion::PageFlags {
            let noted = c.mem.noted.insert(c.vals[ptr]);
            Some(ClifState { mem: HostMem { noted, ..c.mem }, ..c })
        } else if op == ClifRmw::Xchg && flags.region == AliasRegion::HaltReason {
            Some(
                ClifState {
                    mem: c.mem.exchanged(c.vals[value]),
                    ..c.set(inst.result, c.mem.halt())
                },
            )
        } else {
            None
        },
        _ => match clif_step(inst, types, c.vals) {
            Some(vals) => Some(ClifState { vals, ..c }),
            None => None,
        },
    }
}

/// The page that holds an address.
pub open spec fn page_at(a: u64) -> u64 {
    (a - a % 4096) as u64
}

/// Runs instructions one after the other.
pub open spec fn clif_all(
    image: Image,
    host: Host,
    types: Seq<ClifTy>,
    lists: Seq<Seq<u64>>,
    insts: Seq<ClifInst>,
    c: ClifState,
) -> Option<ClifState>
    decreases insts.len(),
{
    if insts.len() == 0 {
        Some(c)
    } else {
        match clif_all(image, host, types, lists, insts.drop_last(), c) {
            Some(before) => clif_do(image, host, types, lists, insts.last(), before),
            None => None,
        }
    }
}

/// The pages of guest memory stand apart, each at a multiple of its size.
pub open spec fn tidy(mem: HostMem) -> bool {
    forall|page: u64| #[trigger]
        mem.pages.contains_key(page) ==> page % 4096 == 0 && page + 4096 <= u64::MAX
            && mem.pages[page].len() <= 4096
}

/// The functions of the host give a byte, and leave the pages tidy.
pub open spec fn behaves(host: Host) -> bool {
    forall|func: HostCallback, numbers: Seq<u64>, mem: HostMem|
        #![trigger host(func, numbers, mem)]
        tidy(mem) ==> tidy(host(func, numbers, mem).0) && host(func, numbers, mem).1 <= 255
}

/// No two values of the IR share a lowered value.
pub open spec fn apart(v: LowerView) -> bool {
    forall|x: u64, y: u64|
        #![trigger v.ready(x), v.ready(y)]
        v.ready(x) && v.ready(y) && x != y ==> v.values[x as int] != v.values[y as int]
}

/// The lowered code is where the IR is: its values hold what the IR's values
/// hold, and memory is the same.
pub open spec fn tracks(
    ir: IrView,
    v: LowerView,
    image: Image,
    m: Machine,
    mem: HostMem,
    c: ClifState,
) -> bool {
    &&& v.wf(ir)
    &&& v.ptr_ty == ClifTy::I64
    &&& apart(v)
    &&& v.ready(Arg::ExecState.spec_value().index)
    &&& v.val(Arg::ExecState.spec_value()) == image.exec_state
    &&& represents(ir, v, m, c.vals)
    &&& c.state == m.state
    &&& c.mem == mem
    &&& tidy(mem)
}

/// What has been computed before is there still.
pub open spec fn still_there(v: LowerView, before: Map<u64, u64>, after: Map<u64, u64>) -> bool {
    forall|x: u64|
        x < v.types.len() && #[trigger] before.contains_key(x) ==> after.contains_key(x)
            && after[x] == before[x]
}

/// Nothing but the values from `low` up to `high` has changed.
pub open spec fn framed(low: nat, high: nat, before: Map<u64, u64>, after: Map<u64, u64>) -> bool {
    forall|x: u64|
        !(low <= x < high) && #[trigger] before.contains_key(x) ==> after.contains_key(x)
            && after[x] == before[x]
}

pub proof fn lemma_all_on(
    image: Image,
    host: Host,
    types: Seq<ClifTy>,
    lists: Seq<Seq<u64>>,
    first: Seq<ClifInst>,
    second: Seq<ClifInst>,
    c: ClifState,
    c1: ClifState,
)
    requires
        clif_all(image, host, types, lists, first, c) == Some(c1),
    ensures
        clif_all(image, host, types, lists, first + second, c) == clif_all(
            image,
            host,
            types,
            lists,
            second,
            c1,
        ),
    decreases second.len(),
{
    if second.len() == 0 {
        assert(first + second =~= first);
    } else {
        lemma_all_on(image, host, types, lists, first, second.drop_last(), c, c1);
        assert((first + second).drop_last() =~= first + second.drop_last());
    }
}

pub proof fn lemma_all_one(
    image: Image,
    host: Host,
    types: Seq<ClifTy>,
    lists: Seq<Seq<u64>>,
    inst: ClifInst,
    c: ClifState,
)
    ensures
        clif_all(image, host, types, lists, seq![inst], c) == clif_do(
            image,
            host,
            types,
            lists,
            inst,
            c,
        ),
{
    reveal_with_fuel(clif_all, 2);
    assert(seq![inst].drop_last() =~= Seq::<ClifInst>::empty());
}

proof fn lemma_all_two(
    image: Image,
    host: Host,
    types: Seq<ClifTy>,
    lists: Seq<Seq<u64>>,
    i1: ClifInst,
    i2: ClifInst,
    c: ClifState,
)
    ensures
        clif_all(image, host, types, lists, seq![i1, i2], c) == (match clif_do(
            image,
            host,
            types,
            lists,
            i1,
            c,
        ) {
            Some(c1) => clif_do(image, host, types, lists, i2, c1),
            None => None,
        }),
{
    reveal_with_fuel(clif_all, 3);
    assert(seq![i1, i2].drop_last() =~= seq![i1]);
    assert(seq![i1].drop_last() =~= Seq::<ClifInst>::empty());
}

/// Lowered code that works on numbers alone does the same with memory around
/// it.
proof fn lemma_pure_all(
    image: Image,
    host: Host,
    types: Seq<ClifTy>,
    lists: Seq<Seq<u64>>,
    insts: Seq<ClifInst>,
    c: ClifState,
)
    requires
        clif_run(insts, types, c.vals) is Some,
    ensures
        clif_all(image, host, types, lists, insts, c) == Some(
            (ClifState { vals: clif_run(insts, types, c.vals)->0, ..c }),
        ),
    decreases insts.len(),
{
    if insts.len() > 0 {
        lemma_pure_all(image, host, types, lists, insts.drop_last(), c);
        let mid = clif_run(insts.drop_last(), types, c.vals)->0;
        assert(clif_step(insts.last(), types, mid) is Some);
    }
}

/// Remembering the only output of a statement.
proof fn lemma_bind_one(
    ir: IrView,
    v: LowerView,
    v1: LowerView,
    out: u64,
    value: u64,
    image: Image,
    m: Machine,
    mem: HostMem,
    c: ClifState,
    c1: ClifState,
    held: Val,
)
    requires
        tracks(ir, v, image, m, mem, c),
        v1 == (LowerView { types: v1.types, blocks: v1.blocks, lists: v1.lists, ..v }),
        v.types.is_prefix_of(v1.types),
        value < v1.types.len() <= u64::MAX,
        forall|x: u64| #[trigger] v.ready(x) ==> v.values[x as int]->0 != value,
        v1.lists.len() <= u64::MAX,
        v1.blocks.len() == v.blocks.len(),
        out < ir.types.len(),
        out != Arg::ExecState.spec_value().index,
        ir.types[out as int] is Bool || v1.types[value as int] == spec_clif_ty(
            ClifTy::I64,
            ir.types[out as int],
        ),
        c1.state == m.state,
        tidy(c1.mem),
        still_there(v, c.vals, c1.vals),
        c1.vals.contains_key(value),
        stands_for(c1.vals[value], held),
        match ir.types[out as int] {
            TypeFull::Int(width) => held matches Val::Int(number) && number <= width.mask(),
            TypeFull::Bool => held is Bool && crisp(ir, out, c1.vals[value]),
            TypeFull::HostPtr(_) => held is Int,
        },
    ensures
        tracks(
            ir,
            v1.bind(seq![out], seq![value], 1),
            image,
            Machine { env: m.env.insert(out, held), ..m },
            c1.mem,
            c1,
        ),
{
    reveal_with_fuel(LowerView::bind, 2);
    let w = v1.bind(seq![out], seq![value], 1);
    let m1 = Machine { env: m.env.insert(out, held), ..m };
    assert(w.values == v.values.update(out as int, Some(value)));
    assert forall|x: int| 0 <= x < w.values.len() implies (#[trigger] w.values[x] matches Some(y)
        ==> y < w.types.len() && (ir.types[x] is Bool || w.types[y as int] == spec_clif_ty(
        w.ptr_ty,
        ir.types[x],
    ))) by {
        if x != out {
            assert(w.values[x] == v.values[x]);
        }
    }
    assert forall|x: u64, y: u64|
        #![trigger w.ready(x), w.ready(y)]
        w.ready(x) && w.ready(y) && x != y implies w.values[x as int] != w.values[y as int] by {
        if x != out {
            assert(v.ready(x));
            assert(v.values[x as int] is Some);
        }
        if y != out {
            assert(v.ready(y));
            assert(v.values[y as int] is Some);
        }
    }
    assert forall|x: u64| #[trigger] w.ready(x) && m1.env.contains_key(x) implies
        c1.vals.contains_key(w.values[x as int]->0) && stands_for(
        c1.vals[w.values[x as int]->0],
        m1.env[x],
    ) && (match ir.types[x as int] {
        TypeFull::Int(width) => m1.env[x] matches Val::Int(number) && number <= width.mask(),
        TypeFull::Bool => m1.env[x] is Bool && crisp(ir, x, c1.vals[w.values[x as int]->0]),
        TypeFull::HostPtr(_) => m1.env[x] is Int,
    }) by {
        if x != out {
            assert(v.ready(x));
            assert(v.values[x as int] is Some);
        }
    }
    let es = Arg::ExecState.spec_value().index;
    assert(w.values[es as int] == v.values[es as int]);
    assert(w.ready(es));
}

/// A statement without outputs.
proof fn lemma_bind_none(
    ir: IrView,
    v: LowerView,
    v1: LowerView,
    outputs: Seq<u64>,
    image: Image,
    m: Machine,
    mem: HostMem,
    c: ClifState,
    m1: Machine,
    c1: ClifState,
)
    requires
        tracks(ir, v, image, m, mem, c),
        v1 == (LowerView { types: v1.types, blocks: v1.blocks, lists: v1.lists, ..v }),
        v.types.is_prefix_of(v1.types),
        v1.types.len() <= u64::MAX,
        v1.lists.len() <= u64::MAX,
        v1.blocks.len() == v.blocks.len(),
        outputs.len() == 0,
        m1.env == m.env,
        c1.state == m1.state,
        tidy(c1.mem),
        still_there(v, c.vals, c1.vals),
    ensures
        tracks(ir, v1.bind(outputs, Seq::empty(), 0), image, m1, c1.mem, c1),
{
    let w = v1.bind(outputs, Seq::empty(), 0);
    assert(w == v1);
    assert forall|x: int| 0 <= x < w.values.len() implies (#[trigger] w.values[x] matches Some(y)
        ==> y < w.types.len() && (ir.types[x] is Bool || w.types[y as int] == spec_clif_ty(
        w.ptr_ty,
        ir.types[x],
    ))) by {
        assert(w.values[x] == v.values[x]);
    }
    assert forall|x: u64, y: u64|
        #![trigger w.ready(x), w.ready(y)]
        w.ready(x) && w.ready(y) && x != y implies w.values[x as int] != w.values[y as int] by {
        assert(v.ready(x) && v.ready(y));
    }
    assert forall|x: u64| #[trigger] w.ready(x) && m1.env.contains_key(x) implies
        c1.vals.contains_key(w.values[x as int]->0) && stands_for(
        c1.vals[w.values[x as int]->0],
        m1.env[x],
    ) && (match ir.types[x as int] {
        TypeFull::Int(width) => m1.env[x] matches Val::Int(number) && number <= width.mask(),
        TypeFull::Bool => m1.env[x] is Bool && crisp(ir, x, c1.vals[w.values[x as int]->0]),
        TypeFull::HostPtr(_) => m1.env[x] is Int,
    }) by {
        assert(v.ready(x));
        assert(v.values[x as int] is Some);
    }
    let es = Arg::ExecState.spec_value().index;
    assert(w.ready(es));
}

/// A statement can be lowered, and the tables of the lowered function hold
/// what lowering it adds.
pub open spec fn set_up(
    ir: IrView,
    v: LowerView,
    image: Image,
    host: Host,
    types: Seq<ClifTy>,
    lists: Seq<Seq<u64>>,
    stmt: StmtView,
    m: Machine,
    mem: HostMem,
    c: ClifState,
) -> bool {
    &&& tracks(ir, v, image, m, mem, c)
    &&& image.linked()
    &&& behaves(host)
    &&& ir.wf()
    &&& ir.stmts.contains(stmt)
    &&& ir.stmt_ok(stmt)
    &&& !stmt.outputs.contains(Arg::ExecState.spec_value().index)
    &&& tags_apart(ir, stmt.rvalue)
    &&& v.refuses(ir, stmt.rvalue) is None
    &&& v.lower(ir, stmt.rvalue).0.types.is_prefix_of(types)
    &&& v.lower(ir, stmt.rvalue).0.lists.is_prefix_of(lists)
    &&& types.len() + 8 <= u64::MAX
    &&& lists.len() + 8 <= u64::MAX
}

/// Running what a statement was lowered to brings the lowered code where the
/// statement brings the IR.
pub open spec fn carried(
    ir: IrView,
    v: LowerView,
    image: Image,
    host: Host,
    types: Seq<ClifTy>,
    lists: Seq<Seq<u64>>,
    stmt: StmtView,
    c: ClifState,
    m2: Machine,
    mem2: HostMem,
) -> bool {
    let (v1, outs) = v.lower(ir, stmt.rvalue);
    &&& clif_all(image, host, types, lists, new_insts(v, v1), c) matches Some(c2)
    &&& framed(v.types.len(), v1.types.len(), c.vals, c2.vals)
    &&& tracks(
        ir,
        v1.bind(stmt.outputs, outs, stmt.outputs.len() as int),
        image,
        m2,
        mem2,
        c2,
    )
}

/// The lowered code follows the statement.
pub open spec fn carried_on(
    ir: IrView,
    v: LowerView,
    image: Image,
    host: Host,
    types: Seq<ClifTy>,
    lists: Seq<Seq<u64>>,
    stmt: StmtView,
    m: Machine,
    mem: HostMem,
    c: ClifState,
) -> bool {
    let (m2, mem2) = ir.exec(host, stmt, m, mem)->0;
    carried(ir, v, image, host, types, lists, stmt, c, m2, mem2)
}

/// What is known of an operand.
pub proof fn lemma_operand(
    ir: IrView,
    v: LowerView,
    image: Image,
    m: Machine,
    mem: HostMem,
    c: ClifState,
    x: SSAValue,
)
    requires
        tracks(ir, v, image, m, mem, c),
        v.ready(x.index),
        m.env.contains_key(x.index),
    ensures
        v.val(x) < v.types.len(),
        c.vals.contains_key(v.val(x)),
        stands_for(c.vals[v.val(x)], m.env[x.index]),
        ir.ty(x) matches TypeFull::Int(width) ==> v.ty(x) == spec_int_ty(width) && m.number(x)
            <= width.mask(),
        ir.ty(x) is HostPtr ==> v.ty(x) == ClifTy::I64 && m.env[x.index] is Int,
        (v.val(x) == image.exec_state) == (x == Arg::ExecState.spec_value()),
{
    assert(v.values[x.index as int] is Some);
    let es = Arg::ExecState.spec_value().index;
    assert(v.ready(es) && v.ready(x.index));
    assert(v.values[es as int] is Some);
}

/// A statement that is lowered to instructions whose last one gives its only
/// output.
proof fn lemma_carried_one(
    ir: IrView,
    v: LowerView,
    image: Image,
    host: Host,
    types: Seq<ClifTy>,
    lists: Seq<Seq<u64>>,
    stmt: StmtView,
    m: Machine,
    mem: HostMem,
    c: ClifState,
    c1: ClifState,
    held: Val,
)
    requires
        set_up(ir, v, image, host, types, lists, stmt, m, mem, c),
        stmt.outputs.len() == 1,
        ({
            let (v1, outs) = v.lower(ir, stmt.rvalue);
            let out = stmt.outputs[0];
            &&& outs.len() == 1
            &&& v1 == (LowerView { types: v1.types, blocks: v1.blocks, lists: v1.lists, ..v })
            &&& v.types.is_prefix_of(v1.types)
            &&& v1.blocks.len() == v.blocks.len()
            &&& v.types.len() <= outs[0] < v1.types.len()
            &&& ir.types[out as int] is Bool || v1.types[outs[0] as int] == spec_clif_ty(
                ClifTy::I64,
                ir.types[out as int],
            )
            &&& clif_all(image, host, types, lists, new_insts(v, v1), c) == Some(c1)
            &&& c1.vals.contains_key(outs[0])
            &&& stands_for(c1.vals[outs[0]], held)
            &&& match ir.types[out as int] {
                TypeFull::Int(width) => held matches Val::Int(number) && number <= width.mask(),
                TypeFull::Bool => held is Bool && crisp(ir, out, c1.vals[outs[0]]),
                TypeFull::HostPtr(_) => held is Int,
            }
        }),
        c1.state == m.state,
        tidy(c1.mem),
        framed(v.types.len(), v.lower(ir, stmt.rvalue).0.types.len(), c.vals, c1.vals),
    ensures
        carried(
            ir,
            v,
            image,
            host,
            types,
            lists,
            stmt,
            c,
            Machine { env: m.env.insert(stmt.outputs[0], held), ..m },
            c1.mem,
        ),
{
    let (v1, outs) = v.lower(ir, stmt.rvalue);
    assert forall|x: u64| #[trigger] v.ready(x) implies v.values[x as int]->0 != outs[0] by {
        assert(v.values[x as int] is Some);
    }
    assert(stmt.outputs =~= seq![stmt.outputs[0]]);
    assert(outs =~= seq![outs[0]]);
    assert(stmt.outputs.contains(stmt.outputs[0]));
    lemma_bind_one(ir, v, v1, stmt.outputs[0], outs[0], image, m, mem, c, c1, held);
}

/// A statement that is lowered to one instruction with one result.
proof fn lemma_single(
    ir: IrView,
    v: LowerView,
    image: Image,
    host: Host,
    types: Seq<ClifTy>,
    lists: Seq<Seq<u64>>,
    stmt: StmtView,
    m: Machine,
    mem: HostMem,
    c: ClifState,
    op: ClifOp,
    ty: ClifTy,
    number: u64,
    held: Val,
)
    requires
        set_up(ir, v, image, host, types, lists, stmt, m, mem, c),
        stmt.outputs.len() == 1,
        v.lower(ir, stmt.rvalue) == (v.ins1(op, ty).0, seq![v.ins1(op, ty).1]),
        clif_do(
            image,
            host,
            types,
            lists,
            ClifInst { op, result: v.types.len() as u64 },
            c,
        ) == Some(c.set(v.types.len() as u64, number)),
        ir.types[stmt.outputs[0] as int] is Bool || ty == spec_clif_ty(
            ClifTy::I64,
            ir.types[stmt.outputs[0] as int],
        ),
        stands_for(number, held),
        match ir.types[stmt.outputs[0] as int] {
            TypeFull::Int(width) => held matches Val::Int(x) && x <= width.mask(),
            TypeFull::Bool => held is Bool && crisp(ir, stmt.outputs[0], number),
            TypeFull::HostPtr(_) => held is Int,
        },
    ensures
        carried(
            ir,
            v,
            image,
            host,
            types,
            lists,
            stmt,
            c,
            Machine { env: m.env.insert(stmt.outputs[0], held), ..m },
            mem,
        ),
{
    let (v1, outs) = v.lower(ir, stmt.rvalue);
    let inst = ClifInst { op, result: v.types.len() as u64 };
    assert(new_insts(v, v1) =~= seq![inst]);
    lemma_all_one(image, host, types, lists, inst, c);
    let c1 = c.set(v.types.len() as u64, number);
    lemma_carried_one(ir, v, image, host, types, lists, stmt, m, mem, c, c1, held);
}

/// What a statement that loads from the host's memory does.
proof fn lemma_load_host(
    ir: IrView,
    v: LowerView,
    image: Image,
    host: Host,
    types: Seq<ClifTy>,
    lists: Seq<Seq<u64>>,
    stmt: StmtView,
    m: Machine,
    mem: HostMem,
    c: ClifState,
)
    requires
        set_up(ir, v, image, host, types, lists, stmt, m, mem, c),
        stmt.rvalue is LoadHost,
        ir.exec(host, stmt, m, mem) is Some,
    ensures
        carried_on(ir, v, image, host, types, lists, stmt, m, mem, c),
{
    if let StmtKind::LoadHost { ty, base_ptr, offset, can_move } = stmt.rvalue {
        let ops = operands(ir, stmt.rvalue);
        assert(v.ready(ops[0]));
        let held = ir.eval_host(stmt.rvalue, m, mem)->0;
        let clif = match ty {
            LoadType::Int(width) => spec_int_ty(width),
            LoadType::HostPtr(_) => ClifTy::I64,
        };
        let flags = host_flags(can_move, ir.ty(base_ptr)->HostPtr_0);
        let op = ClifOp::Load { ty: clif, flags, base: v.val(base_ptr), offset: offset as u32 };
        assert(stmt.outputs[0] < ir.types.len());
        if base_ptr == Arg::ExecState.spec_value() {
            assert(v.val(base_ptr) == image.exec_state);
            lemma_wrap_below(ty->Int_0, m.state[offset] as int);
        } else {
            lemma_operand(ir, v, image, m, mem, c, base_ptr);
            let cell = mem.cells[displaced(m.number(base_ptr), offset as int)];
            lemma_wrap_below(IntWidth::W64, cell as int);
            match ty {
                LoadType::Int(width) => lemma_wrap_below(width, cell as int),
                LoadType::HostPtr(_) => lemma_whole(cell),
            }
        }
        lemma_single(
            ir,
            v,
            image,
            host,
            types,
            lists,
            stmt,
            m,
            mem,
            c,
            op,
            clif,
            held->Int_0,
            held,
        );
    }
}

/// A wrapped number fits the width.
proof fn lemma_wrap_below(width: IntWidth, x: int)
    ensures
        width.wrap(x) <= width.mask(),
{
    vstd::arithmetic::div_mod::lemma_mod_bound(x, width.modulus());
}

/// A 64-bit number stays as it is.
proof fn lemma_whole(x: u64)
    ensures
        IntWidth::W64.wrap(x as int) == x,
{
    assert(IntWidth::W64.modulus() == 0x1_0000_0000_0000_0000);
}

/// A statement without outputs.
proof fn lemma_carried_none(
    ir: IrView,
    v: LowerView,
    image: Image,
    host: Host,
    types: Seq<ClifTy>,
    lists: Seq<Seq<u64>>,
    stmt: StmtView,
    m: Machine,
    mem: HostMem,
    c: ClifState,
    c1: ClifState,
    m1: Machine,
)
    requires
        set_up(ir, v, image, host, types, lists, stmt, m, mem, c),
        stmt.outputs.len() == 0,
        ({
            let (v1, outs) = v.lower(ir, stmt.rvalue);
            &&& outs.len() == 0
            &&& v1 == (LowerView { types: v1.types, blocks: v1.blocks, lists: v1.lists, ..v })
            &&& v.types.is_prefix_of(v1.types)
            &&& v1.blocks.len() == v.blocks.len()
            &&& clif_all(image, host, types, lists, new_insts(v, v1), c) == Some(c1)
        }),
        m1.env == m.env,
        c1.state == m1.state,
        tidy(c1.mem),
        framed(v.types.len(), v.lower(ir, stmt.rvalue).0.types.len(), c.vals, c1.vals),
    ensures
        carried(ir, v, image, host, types, lists, stmt, c, m1, c1.mem),
{
    let (v1, outs) = v.lower(ir, stmt.rvalue);
    assert(outs =~= Seq::<u64>::empty());
    lemma_bind_none(ir, v, v1, stmt.outputs, image, m, mem, c, m1, c1);
}

/// What a statement that stores to the host's memory does.
proof fn lemma_store_host(
    ir: IrView,
    v: LowerView,
    image: Image,
    host: Host,
    types: Seq<ClifTy>,
    lists: Seq<Seq<u64>>,
    stmt: StmtView,
    m: Machine,
    mem: HostMem,
    c: ClifState,
)
    requires
        set_up(ir, v, image, host, types, lists, stmt, m, mem, c),
        stmt.rvalue is StoreHost,
        ir.exec(host, stmt, m, mem) is Some,
    ensures
        carried_on(ir, v, image, host, types, lists, stmt, m, mem, c),
{
    if let StmtKind::StoreHost { base_ptr, offset, value, can_move } = stmt.rvalue {
        let ops = operands(ir, stmt.rvalue);
        assert(v.ready(ops[0]) && v.ready(ops[1]));
        lemma_operand(ir, v, image, m, mem, c, value);
        let flags = host_flags(can_move, ir.ty(base_ptr)->HostPtr_0);
        let op = ClifOp::Store {
            flags,
            value: v.val(value),
            base: v.val(base_ptr),
            offset: offset as u32,
        };
        let inst = ClifInst { op, result: v.types.len() as u64 };
        let v1 = v.lower(ir, stmt.rvalue).0;
        assert(new_insts(v, v1) =~= seq![inst]);
        lemma_all_one(image, host, types, lists, inst, c);
        if base_ptr == Arg::ExecState.spec_value() {
            assert(v.val(base_ptr) == image.exec_state);
        } else {
            lemma_operand(ir, v, image, m, mem, c, base_ptr);
        }
        let c1 = clif_do(image, host, types, lists, inst, c)->0;
        let (m1, mem1) = ir.exec(host, stmt, m, mem)->0;
        lemma_carried_none(ir, v, image, host, types, lists, stmt, m, mem, c, c1, m1);
    }
}

/// What the address of a stack slot is.
proof fn lemma_stack_ptr(
    ir: IrView,
    v: LowerView,
    image: Image,
    host: Host,
    types: Seq<ClifTy>,
    lists: Seq<Seq<u64>>,
    stmt: StmtView,
    m: Machine,
    mem: HostMem,
    c: ClifState,
)
    requires
        set_up(ir, v, image, host, types, lists, stmt, m, mem, c),
        stmt.rvalue is LoadStackPtr,
        ir.exec(host, stmt, m, mem) is Some,
    ensures
        carried_on(ir, v, image, host, types, lists, stmt, m, mem, c),
{
    if let StmtKind::LoadStackPtr { slot } = stmt.rvalue {
        let held = ir.eval_host(stmt.rvalue, m, mem)->0;
        let op = ClifOp::StackAddr { slot: slot.index };
        assert(stmt.outputs[0] < ir.types.len());
        lemma_single(
            ir,
            v,
            image,
            host,
            types,
            lists,
            stmt,
            m,
            mem,
            c,
            op,
            ClifTy::I64,
            held->Int_0,
            held,
        );
    }
}

/// What comparing pointers does.
proof fn lemma_ptr_eq(
    ir: IrView,
    v: LowerView,
    image: Image,
    host: Host,
    types: Seq<ClifTy>,
    lists: Seq<Seq<u64>>,
    stmt: StmtView,
    m: Machine,
    mem: HostMem,
    c: ClifState,
)
    requires
        set_up(ir, v, image, host, types, lists, stmt, m, mem, c),
        stmt.rvalue is PtrEq,
        ir.exec(host, stmt, m, mem) is Some,
    ensures
        carried_on(ir, v, image, host, types, lists, stmt, m, mem, c),
{
    if let StmtKind::PtrEq(a, b) = stmt.rvalue {
        let ops = operands(ir, stmt.rvalue);
        assert(v.ready(ops[0]) && v.ready(ops[1]));
        lemma_operand(ir, v, image, m, mem, c, a);
        lemma_operand(ir, v, image, m, mem, c, b);
        let held = ir.eval_host(stmt.rvalue, m, mem)->0;
        let op = ClifOp::Compare { predicate: IntCmp::Equal, lhs: v.val(a), rhs: v.val(b) };
        assert(stmt.outputs[0] < ir.types.len());
        lemma_single(
            ir,
            v,
            image,
            host,
            types,
            lists,
            stmt,
            m,
            mem,
            c,
            op,
            ClifTy::I8,
            byte_of(held->Bool_0),
            held,
        );
    }
}

/// The tables of the whole function hold what they held here.
proof fn lemma_types_here(
    ir: IrView,
    v: LowerView,
    image: Image,
    host: Host,
    types: Seq<ClifTy>,
    lists: Seq<Seq<u64>>,
    stmt: StmtView,
    m: Machine,
    mem: HostMem,
    c: ClifState,
    x: SSAValue,
)
    requires
        set_up(ir, v, image, host, types, lists, stmt, m, mem, c),
        v.types.is_prefix_of(v.lower(ir, stmt.rvalue).0.types),
        v.val(x) < v.types.len(),
    ensures
        types[v.val(x) as int] == v.ty(x),
{
    let w = v.lower(ir, stmt.rvalue).0;
    assert(w.types[v.val(x) as int] == v.types[v.val(x) as int]);
}

/// What testing tags does.
proof fn lemma_has_tag(
    ir: IrView,
    v: LowerView,
    image: Image,
    host: Host,
    types: Seq<ClifTy>,
    lists: Seq<Seq<u64>>,
    stmt: StmtView,
    m: Machine,
    mem: HostMem,
    c: ClifState,
)
    requires
        set_up(ir, v, image, host, types, lists, stmt, m, mem, c),
        stmt.rvalue is HasTag,
        ir.exec(host, stmt, m, mem) is Some,
    ensures
        carried_on(ir, v, image, host, types, lists, stmt, m, mem, c),
{
    if let StmtKind::HasTag { ptr, tag_bits } = stmt.rvalue {
        let ops = operands(ir, stmt.rvalue);
        assert(v.ready(ops[0]));
        lemma_operand(ir, v, image, m, mem, c, ptr);
        lemma_types_here(ir, v, image, host, types, lists, stmt, m, mem, c, ptr);
        lemma_whole(tag_bits as u64);
        let held = ir.eval_host(stmt.rvalue, m, mem)->0;
        let op = ClifOp::BinaryImm {
            op: ClifBinary::Band,
            lhs: v.val(ptr),
            imm: tag_bits as u64,
        };
        let out = stmt.outputs[0];
        assert(out < ir.types.len());
        assert(tag_test(ir, out)) by {
            let s = choose|s: int| 0 <= s < ir.stmts.len() && ir.stmts[s] == stmt;
            assert(ir.stmts[s].outputs.contains(out));
        }
        let number = m.number(ptr) & (tag_bits as u64);
        lemma_single(
            ir,
            v,
            image,
            host,
            types,
            lists,
            stmt,
            m,
            mem,
            c,
            op,
            v.ty(ptr),
            number,
            held,
        );
    }
}

/// What clearing tags does.
proof fn lemma_untag(
    ir: IrView,
    v: LowerView,
    image: Image,
    host: Host,
    types: Seq<ClifTy>,
    lists: Seq<Seq<u64>>,
    stmt: StmtView,
    m: Machine,
    mem: HostMem,
    c: ClifState,
)
    requires
        set_up(ir, v, image, host, types, lists, stmt, m, mem, c),
        stmt.rvalue is Untag,
        ir.exec(host, stmt, m, mem) is Some,
    ensures
        carried_on(ir, v, image, host, types, lists, stmt, m, mem, c),
{
    if let StmtKind::Untag { ptr, tag_bits } = stmt.rvalue {
        let ops = operands(ir, stmt.rvalue);
        assert(v.ready(ops[0]));
        lemma_operand(ir, v, image, m, mem, c, ptr);
        lemma_types_here(ir, v, image, host, types, lists, stmt, m, mem, c, ptr);
        let tag: u64 = tag_bits as u64;
        let rest: u64 = (u64::MAX - tag) as u64;
        assert(rest == !tag) by (bit_vector)
            requires
                rest == 0xffff_ffff_ffff_ffffu64 - tag,
        ;
        lemma_whole(rest);
        let held = ir.eval_host(stmt.rvalue, m, mem)->0;
        let op = ClifOp::BinaryImm { op: ClifBinary::Band, lhs: v.val(ptr), imm: rest };
        assert(stmt.outputs[0] < ir.types.len());
        lemma_single(
            ir,
            v,
            image,
            host,
            types,
            lists,
            stmt,
            m,
            mem,
            c,
            op,
            v.ty(ptr),
            held->Int_0,
            held,
        );
    }
}

/// What adding an offset to a pointer does.
proof fn lemma_ptr_add(
    ir: IrView,
    v: LowerView,
    image: Image,
    host: Host,
    types: Seq<ClifTy>,
    lists: Seq<Seq<u64>>,
    stmt: StmtView,
    m: Machine,
    mem: HostMem,
    c: ClifState,
)
    requires
        set_up(ir, v, image, host, types, lists, stmt, m, mem, c),
        stmt.rvalue is PtrAdd,
        ir.exec(host, stmt, m, mem) is Some,
    ensures
        carried_on(ir, v, image, host, types, lists, stmt, m, mem, c),
{
    if let StmtKind::PtrAdd { base_ptr, offset, elem_size } = stmt.rvalue {
        let ops = operands(ir, stmt.rvalue);
        assert(v.ready(ops[0]) && v.ready(ops[1]));
        lemma_operand(ir, v, image, m, mem, c, base_ptr);
        lemma_operand(ir, v, image, m, mem, c, offset);
        lemma_types_here(ir, v, image, host, types, lists, stmt, m, mem, c, base_ptr);
        lemma_types_here(ir, v, image, host, types, lists, stmt, m, mem, c, offset);
        let held = ir.eval_host(stmt.rvalue, m, mem)->0;
        assert(stmt.outputs[0] < ir.types.len());
        lemma_whole(held->Int_0);
        let t = v.types.len() as u64;
        if elem_size == 1 {
            let op = ClifOp::Binary {
                op: ClifBinary::Iadd,
                lhs: v.val(base_ptr),
                rhs: v.val(offset),
            };
            lemma_single(
                ir,
                v,
                image,
                host,
                types,
                lists,
                stmt,
                m,
                mem,
                c,
                op,
                ClifTy::I64,
                held->Int_0,
                held,
            );
        } else {
            let by = m.number(offset);
            assert(by * elem_size >= 0) by (nonlinear_arith);
            let scaled = (by * elem_size) as u64;
            lemma_whole(elem_size as u64);
            lemma_whole(scaled);
            let i1 = ClifInst {
                op: ClifOp::BinaryImm {
                    op: ClifBinary::Imul,
                    lhs: v.val(offset),
                    imm: elem_size as u64,
                },
                result: t,
            };
            let i2 = ClifInst {
                op: ClifOp::Binary { op: ClifBinary::Iadd, lhs: v.val(base_ptr), rhs: t },
                result: (t + 1) as u64,
            };
            let v1 = v.lower(ir, stmt.rvalue).0;
            assert(v1.types =~= v.types + seq![ClifTy::I64, ClifTy::I64]);
            assert(new_insts(v, v1) =~= seq![i1, i2]);
            lemma_all_two(image, host, types, lists, i1, i2, c);
            let c1 = c.set(t, scaled);
            assert(clif_do(image, host, types, lists, i1, c) == Some(c1));
            let c2 = c1.set((t + 1) as u64, held->Int_0);
            assert(clif_do(image, host, types, lists, i2, c1) == Some(c2));
            lemma_carried_one(ir, v, image, host, types, lists, stmt, m, mem, c, c2, held);
        }
    }
}

/// A place in a page: its address leads back to the page and the place.
proof fn lemma_place(mem: HostMem, page: u64, offset: u64)
    requires
        tidy(mem),
        mem.pages.contains_key(page),
        offset < 4096,
    ensures
        page + offset <= u64::MAX,
        page_at((page + offset) as u64) == page,
        (page + offset) % 4096 == offset,
        IntWidth::W64.wrap(page + offset) == page + offset,
{
    assert(page % 4096 == 0);
    lemma_whole((page + offset) as u64);
}

/// What loading from a page of guest memory does.
proof fn lemma_vm_load(
    ir: IrView,
    v: LowerView,
    image: Image,
    host: Host,
    types: Seq<ClifTy>,
    lists: Seq<Seq<u64>>,
    stmt: StmtView,
    m: Machine,
    mem: HostMem,
    c: ClifState,
)
    requires
        set_up(ir, v, image, host, types, lists, stmt, m, mem, c),
        stmt.rvalue is VMLoadRaw,
        ir.exec(host, stmt, m, mem) is Some,
    ensures
        carried_on(ir, v, image, host, types, lists, stmt, m, mem, c),
{
    if let StmtKind::VMLoadRaw { aligned_page_ptr, page_offset, width, seq_cst } = stmt.rvalue {
        let ops = operands(ir, stmt.rvalue);
        assert(v.ready(ops[0]) && v.ready(ops[1]));
        lemma_operand(ir, v, image, m, mem, c, aligned_page_ptr);
        lemma_operand(ir, v, image, m, mem, c, page_offset);
        let ty = spec_int_ty(width);
        let v1 = v.lower(ir, stmt.rvalue).0;
        assert(v1.types =~= v.types + seq![ClifTy::I64, ty]);
        lemma_types_here(ir, v, image, host, types, lists, stmt, m, mem, c, aligned_page_ptr);
        let held = ir.eval_host(stmt.rvalue, m, mem)->0;
        assert(stmt.outputs[0] < ir.types.len());
        let page = m.number(aligned_page_ptr);
        let offset = m.number(page_offset);
        lemma_place(mem, page, offset);
        let bytes = window(mem.pages[page], offset as int, width.spec_bytes());
        lemma_le_value_bound(bytes);
        lemma_pow256_values();
        let t = v.types.len() as u64;
        let i1 = ClifInst {
            op: ClifOp::Binary {
                op: ClifBinary::Iadd,
                lhs: v.val(aligned_page_ptr),
                rhs: v.val(page_offset),
            },
            result: t,
        };
        let i2 = ClifInst {
            op: ClifOp::AtomicLoad { ty, flags: guest_flags(), ptr: t },
            result: (t + 1) as u64,
        };
        assert(new_insts(v, v1) =~= seq![i1, i2]);
        lemma_all_two(image, host, types, lists, i1, i2, c);
        let c1 = c.set(t, (page + offset) as u64);
        assert(clif_do(image, host, types, lists, i1, c) == Some(c1));
        let c2 = c1.set((t + 1) as u64, held->Int_0);
        assert(clif_do(image, host, types, lists, i2, c1) == Some(c2));
        lemma_carried_one(ir, v, image, host, types, lists, stmt, m, mem, c, c2, held);
    }
}

/// What storing to a page of guest memory does.
proof fn lemma_vm_store(
    ir: IrView,
    v: LowerView,
    image: Image,
    host: Host,
    types: Seq<ClifTy>,
    lists: Seq<Seq<u64>>,
    stmt: StmtView,
    m: Machine,
    mem: HostMem,
    c: ClifState,
)
    requires
        set_up(ir, v, image, host, types, lists, stmt, m, mem, c),
        stmt.rvalue is VMStoreRaw,
        ir.exec(host, stmt, m, mem) is Some,
    ensures
        carried_on(ir, v, image, host, types, lists, stmt, m, mem, c),
{
    if let StmtKind::VMStoreRaw { aligned_page_ptr, page_offset, value, seq_cst } = stmt.rvalue {
        let ops = operands(ir, stmt.rvalue);
        assert(v.ready(ops[0]) && v.ready(ops[1]) && v.ready(ops[2]));
        lemma_operand(ir, v, image, m, mem, c, aligned_page_ptr);
        lemma_operand(ir, v, image, m, mem, c, page_offset);
        lemma_operand(ir, v, image, m, mem, c, value);
        let v1 = v.lower(ir, stmt.rvalue).0;
        assert(v1.types =~= v.types + seq![ClifTy::I64]);
        lemma_types_here(ir, v, image, host, types, lists, stmt, m, mem, c, aligned_page_ptr);
        lemma_types_here(ir, v, image, host, types, lists, stmt, m, mem, c, value);
        let page = m.number(aligned_page_ptr);
        let offset = m.number(page_offset);
        lemma_place(mem, page, offset);
        let t = v.types.len() as u64;
        let i1 = ClifInst {
            op: ClifOp::Binary {
                op: ClifBinary::Iadd,
                lhs: v.val(aligned_page_ptr),
                rhs: v.val(page_offset),
            },
            result: t,
        };
        let i2 = ClifInst {
            op: ClifOp::AtomicStore { flags: guest_flags(), value: v.val(value), ptr: t },
            result: (t + 1) as u64,
        };
        assert(new_insts(v, v1) =~= seq![i1, i2]);
        lemma_all_two(image, host, types, lists, i1, i2, c);
        let c1 = c.set(t, (page + offset) as u64);
        assert(clif_do(image, host, types, lists, i1, c) == Some(c1));
        let (m1, mem1) = ir.exec(host, stmt, m, mem)->0;
        let c2 = ClifState { mem: mem1, ..c1 };
        assert(clif_do(image, host, types, lists, i2, c1) == Some(c2));
        lemma_carried_none(ir, v, image, host, types, lists, stmt, m, mem, c, c2, m1);
    }
}

/// What noting a store in the flags of a page does.
proof fn lemma_dirty_flag(
    ir: IrView,
    v: LowerView,
    image: Image,
    host: Host,
    types: Seq<ClifTy>,
    lists: Seq<Seq<u64>>,
    stmt: StmtView,
    m: Machine,
    mem: HostMem,
    c: ClifState,
)
    requires
        set_up(ir, v, image, host, types, lists, stmt, m, mem, c),
        stmt.rvalue is SetPageDirtyFlag,
        ir.exec(host, stmt, m, mem) is Some,
    ensures
        carried_on(ir, v, image, host, types, lists, stmt, m, mem, c),
{
    if let StmtKind::SetPageDirtyFlag(ptr) = stmt.rvalue {
        let ops = operands(ir, stmt.rvalue);
        assert(v.ready(ops[0]));
        lemma_operand(ir, v, image, m, mem, c, ptr);
        let t = v.types.len() as u64;
        let i1 = ClifInst {
            op: ClifOp::Iconst { ty: ClifTy::I8, bits: PAGE_DIRTY_FLAG as u64 },
            result: t,
        };
        let i2 = ClifInst {
            op: ClifOp::AtomicRmw {
                ty: ClifTy::I8,
                flags: host_flags(false, AliasRegion::PageFlags),
                op: ClifRmw::Or,
                ptr: v.val(ptr),
                value: t,
            },
            result: (t + 1) as u64,
        };
        let v1 = v.lower(ir, stmt.rvalue).0;
        assert(v1.types =~= v.types + seq![ClifTy::I8, ClifTy::I8]);
        assert(new_insts(v, v1) =~= seq![i1, i2]);
        lemma_all_two(image, host, types, lists, i1, i2, c);
        let c1 = clif_do(image, host, types, lists, i1, c)->0;
        let (m1, mem1) = ir.exec(host, stmt, m, mem)->0;
        let c2 = ClifState { mem: mem1, ..c1 };
        assert(clif_do(image, host, types, lists, i2, c1) == Some(c2));
        lemma_carried_none(ir, v, image, host, types, lists, stmt, m, mem, c, c2, m1);
    }
}

/// What calling a function of the host does.
proof fn lemma_callback(
    ir: IrView,
    v: LowerView,
    image: Image,
    host: Host,
    types: Seq<ClifTy>,
    lists: Seq<Seq<u64>>,
    stmt: StmtView,
    m: Machine,
    mem: HostMem,
    c: ClifState,
)
    requires
        set_up(ir, v, image, host, types, lists, stmt, m, mem, c),
        stmt.rvalue is HostCallback,
        ir.exec(host, stmt, m, mem) is Some,
    ensures
        carried_on(ir, v, image, host, types, lists, stmt, m, mem, c),
{
    if let StmtKind::HostCallback { func, signature, args } = stmt.rvalue {
        let values = ir.calls[args.index as int];
        let items = v.vals(values);
        let t = v.types.len() as u64;
        let list = ClifList { index: v.lists.len() as u64 };
        let i1 = ClifInst { op: ClifOp::FuncAddr { func }, result: t };
        let i2 = ClifInst {
            op: ClifOp::CallIndirect { signature, callee: t, args: list },
            result: (t + 1) as u64,
        };
        let (v1, outs) = v.lower(ir, stmt.rvalue);
        match signature.spec_ret() {
            Some(ty) => {
                assert(v1.types =~= v.types + seq![ClifTy::I64, spec_clif_ty(ClifTy::I64, ty)]);
            },
            None => {
                assert(v1.types =~= v.types + seq![ClifTy::I64]);
            },
        }
        assert(new_insts(v, v1) =~= seq![i1, i2]);
        assert(v1.lists == v.lists.push(items));
        assert(lists[v.lists.len() as int] == v1.lists[v.lists.len() as int]);
        lemma_all_two(image, host, types, lists, i1, i2, c);
        let c1 = c.set(t, (image.address)(func));
        let numbers = Seq::new(values.len(), |i: int| m.number(SSAValue { index: values[i] }));
        let passed = Seq::new(items.len(), |i: int| c1.vals[items[i]]);
        assert forall|i: int| 0 <= i < values.len() implies passed[i] == numbers[i] by {
            let x = SSAValue { index: values[i] };
            assert(v.ready(operands(ir, stmt.rvalue)[i]));
            assert(m.has_int(x));
            lemma_operand(ir, v, image, m, mem, c, x);
        }
        assert(passed =~= numbers);
        assert((image.function)((image.address)(func)) == func);
        let (after, status) = host(func, numbers, mem);
        let mem1 = HostMem { stack: mem.stack, ..after };
        let called = ClifState { mem: mem1, ..c1 };
        match signature.spec_ret() {
            Some(ty) => {
                let c2 = called.set((t + 1) as u64, status);
                assert(clif_do(image, host, types, lists, i2, c1) == Some(c2));
                assert(stmt.outputs[0] < ir.types.len());
                lemma_carried_one(
                    ir,
                    v,
                    image,
                    host,
                    types,
                    lists,
                    stmt,
                    m,
                    mem,
                    c,
                    c2,
                    Val::Int(status),
                );
            },
            None => {
                assert(clif_do(image, host, types, lists, i2, c1) == Some(called));
                lemma_carried_none(ir, v, image, host, types, lists, stmt, m, mem, c, called, m);
            },
        }
    }
}

/// What a point at which execution may stop does: nothing.
proof fn lemma_safepoint(
    ir: IrView,
    v: LowerView,
    image: Image,
    host: Host,
    types: Seq<ClifTy>,
    lists: Seq<Seq<u64>>,
    stmt: StmtView,
    m: Machine,
    mem: HostMem,
    c: ClifState,
)
    requires
        set_up(ir, v, image, host, types, lists, stmt, m, mem, c),
        stmt.rvalue is Safepoint,
        ir.exec(host, stmt, m, mem) is Some,
    ensures
        carried_on(ir, v, image, host, types, lists, stmt, m, mem, c),
{
    assert(new_insts(v, v) =~= Seq::<ClifInst>::empty());
    lemma_carried_none(ir, v, image, host, types, lists, stmt, m, mem, c, c, m);
}

/// What an operation that tells whether it overflows does.
proof fn lemma_overflow(
    ir: IrView,
    v: LowerView,
    image: Image,
    host: Host,
    types: Seq<ClifTy>,
    lists: Seq<Seq<u64>>,
    stmt: StmtView,
    m: Machine,
    mem: HostMem,
    c: ClifState,
)
    requires
        set_up(ir, v, image, host, types, lists, stmt, m, mem, c),
        stmt.rvalue is OverflowingBinOp,
        ir.exec(host, stmt, m, mem) is Some,
    ensures
        carried_on(ir, v, image, host, types, lists, stmt, m, mem, c),
{
    if let StmtKind::OverflowingBinOp { op, lhs, rhs } = stmt.rvalue {
        let ops = operands(ir, stmt.rvalue);
        assert(v.ready(ops[0]) && v.ready(ops[1]));
        lemma_operand(ir, v, image, m, mem, c, lhs);
        lemma_operand(ir, v, image, m, mem, c, rhs);
        let (v1, outs) = v.lower(ir, stmt.rvalue);
        let (o0, o1) = (stmt.outputs[0], stmt.outputs[1]);
        assert(o0 < ir.types.len() && o1 < ir.types.len());
        assert(stmt.outputs.contains(o0) && stmt.outputs.contains(o1));
        assert(v1.types =~= v.types + seq![v.ty(lhs), ClifTy::I8]);
        lemma_types_here(ir, v, image, host, types, lists, stmt, m, mem, c, lhs);
        let width = ir.width(lhs);
        let t = v.types.len() as u64;
        let inst = ClifInst {
            op: ClifOp::Overflowing { op, lhs: v.val(lhs), rhs: v.val(rhs) },
            result: t,
        };
        assert(new_insts(v, v1) =~= seq![inst]);
        lemma_all_one(image, host, types, lists, inst, c);
        let value = overflowing(op, width, m.number(lhs), m.number(rhs));
        let flag = overflows(op, width, m.number(lhs), m.number(rhs));
        match op {
            OverflowingBinOp::Add => lemma_wrap_below(width, m.number(lhs) + m.number(rhs)),
            OverflowingBinOp::Sub => lemma_wrap_below(width, m.number(lhs) - m.number(rhs)),
        }
        let c1 = c.set(t, value).set((t + 1) as u64, byte_of(flag));
        assert(clif_do(image, host, types, lists, inst, c) == Some(c1));
        assert forall|x: u64| #[trigger] v.ready(x) implies v.values[x as int]->0 < t by {
            assert(v.values[x as int] is Some);
        }
        lemma_bind_one(ir, v, v1, o0, t, image, m, mem, c, c1, Val::Int(value));
        reveal_with_fuel(LowerView::bind, 3);
        let w0 = v1.bind(seq![o0], seq![t], 1);
        let m0 = Machine { env: m.env.insert(o0, Val::Int(value)), ..m };
        assert(w0.values == v.values.update(o0 as int, Some(t)));
        assert forall|x: u64| #[trigger] w0.ready(x) implies w0.values[x as int]->0 != t + 1 by {
            if x != o0 {
                assert(v.ready(x));
            }
        }
        let second = (t + 1) as u64;
        lemma_bind_one(ir, w0, w0, o1, second, image, m0, mem, c1, c1, Val::Bool(flag));
        assert(v1.bind(stmt.outputs, outs, 2) =~= w0.bind(seq![o1], seq![second], 1));
    }
}

/// The instruction looks at the types of its first `n` values alone.
pub open spec fn looks_below(op: ClifOp, n: nat) -> bool {
    match op {
        ClifOp::Binary { op: _, lhs, rhs: _ } => lhs < n,
        ClifOp::BinaryImm { op: _, lhs, imm: _ } => lhs < n,
        ClifOp::Unary { op: _, value } => value < n,
        ClifOp::Compare { predicate: _, lhs, rhs: _ } => lhs < n,
        ClifOp::CompareImm { predicate: _, lhs, imm: _ } => lhs < n,
        ClifOp::Overflowing { .. } => false,
        _ => true,
    }
}

/// Values that come later do not matter.
proof fn lemma_run_below(
    insts: Seq<ClifInst>,
    types: Seq<ClifTy>,
    more: Seq<ClifTy>,
    vals: Map<u64, u64>,
)
    requires
        types.is_prefix_of(more),
        forall|i: int| 0 <= i < insts.len() ==> looks_below((#[trigger] insts[i]).op, types.len()),
    ensures
        clif_run(insts, more, vals) == clif_run(insts, types, vals),
    decreases insts.len(),
{
    if insts.len() > 0 {
        let first = insts.drop_last();
        assert forall|i: int| 0 <= i < first.len() implies looks_below(
            (#[trigger] first[i]).op,
            types.len(),
        ) by {
            assert(first[i] == insts[i]);
        }
        lemma_run_below(first, types, more, vals);
        assert(looks_below(insts[insts.len() - 1].op, types.len()));
        assert(forall|x: int| 0 <= x < types.len() ==> #[trigger] more[x] == types[x]);
    }
}

/// Running instructions changes nothing but their results.
proof fn lemma_run_framed(
    insts: Seq<ClifInst>,
    types: Seq<ClifTy>,
    vals: Map<u64, u64>,
    low: nat,
    high: nat,
)
    requires
        clif_run(insts, types, vals) is Some,
        forall|i: int|
            0 <= i < insts.len() ==> !((#[trigger] insts[i]).op is Overflowing) && low
                <= insts[i].result < high,
    ensures
        framed(low, high, vals, clif_run(insts, types, vals)->0),
    decreases insts.len(),
{
    if insts.len() > 0 {
        let first = insts.drop_last();
        assert forall|i: int| 0 <= i < first.len() implies !((#[trigger] first[i]).op is Overflowing)
            && low <= first[i].result < high by {
            assert(first[i] == insts[i]);
        }
        lemma_run_framed(first, types, vals, low, high);
        assert(!(insts[insts.len() - 1].op is Overflowing));
    }
}

/// What lowering a computation on numbers appends.
#[verifier::spinoff_prover]
#[verifier::rlimit(100)]
pub proof fn lemma_pure_shape(ir: IrView, v: LowerView, rvalue: StmtKind)
    requires
        v.wf(ir),
        v.types.len() + 8 <= u64::MAX,
        ir.typed(rvalue),
        is_pure(rvalue),
        v.refuses(ir, rvalue) is None,
    ensures
        ({
            let (w, outs) = v.lower(ir, rvalue);
            &&& outs.len() == 1
            &&& w == (LowerView { types: w.types, blocks: w.blocks, ..v })
            &&& v.types.is_prefix_of(w.types)
            &&& w.blocks.len() == v.blocks.len()
            &&& v.types.len() <= outs[0] < w.types.len()
            &&& ir.output_types(rvalue).len() == 1
            &&& ir.output_types(rvalue)[0] is Bool || w.types[outs[0] as int] == spec_clif_ty(
                v.ptr_ty,
                ir.output_types(rvalue)[0],
            )
            &&& forall|i: int|
                0 <= i < new_insts(v, w).len() ==> looks_below(
                    (#[trigger] new_insts(v, w)[i]).op,
                    v.types.len(),
                ) && v.types.len() <= new_insts(v, w)[i].result < w.types.len()
        }),
{
    let ops = operands(ir, rvalue);
    assert(ops.len() > 0 ==> v.ready(ops[0]));
    assert(ops.len() > 1 ==> v.ready(ops[1]));
    assert(ops.len() > 2 ==> v.ready(ops[2]));
    assert(ops.len() > 0 ==> v.values[ops[0] as int] is Some);
    assert(ops.len() > 1 ==> v.values[ops[1] as int] is Some);
    assert(ops.len() > 2 ==> v.values[ops[2] as int] is Some);
    let (w, outs) = v.lower(ir, rvalue);
    let n = v.blocks[v.current as int].insts.len() as int;
    assert(new_insts(v, w).len() == w.blocks[v.current as int].insts.len() - n);
    assert(forall|i: int|
        0 <= i < new_insts(v, w).len() ==> #[trigger] new_insts(v, w)[i]
            == w.blocks[v.current as int].insts[n + i]);
}

/// A shifted number fits its width.
proof fn lemma_shifted_fits(op: ShiftOp, width: IntWidth, a: u64, by: int)
    requires
        a <= width.mask(),
        by >= 0,
    ensures
        shifted(op, width, a, by) <= width.mask(),
{
    let scale = pow2(by as nat) as int;
    lemma_pow2_pos(by as nat);
    match op {
        ShiftOp::Shl => lemma_wrap_below(width, a * scale),
        ShiftOp::ZeroExtendShr => {
            assert(0 <= a as int / scale <= a) by (nonlinear_arith)
                requires
                    scale > 0,
            ;
        },
        ShiftOp::SignExtendShr => lemma_wrap_below(width, width.signed(a) / scale),
    }
}

/// Combining the bits of two numbers of a width gives a number of the width.
proof fn lemma_bits_fit(op: BitwiseOp, width: IntWidth, a: u64, b: u64)
    requires
        a <= width.mask(),
        b <= width.mask(),
    ensures
        bitwise(op, a, b) <= width.mask(),
{
    assert(a <= 0xff && b <= 0xff ==> a & b <= 0xff && a | b <= 0xff && a ^ b <= 0xff)
        by (bit_vector);
    assert(a <= 0xffff && b <= 0xffff ==> a & b <= 0xffff && a | b <= 0xffff && a ^ b <= 0xffff)
        by (bit_vector);
    assert(a <= 0xffff_ffff && b <= 0xffff_ffff ==> a & b <= 0xffff_ffff && a | b <= 0xffff_ffff
        && a ^ b <= 0xffff_ffff) by (bit_vector);
}

/// What a computation on numbers gives is of the type of its output.
#[verifier::spinoff_prover]
#[verifier::rlimit(60)]
proof fn lemma_eval_fits(
    ir: IrView,
    v: LowerView,
    rvalue: StmtKind,
    m: Machine,
    vals: Map<u64, u64>,
)
    requires
        v.wf(ir),
        ir.typed(rvalue),
        is_pure(rvalue),
        v.refuses(ir, rvalue) is None,
        represents(ir, v, m, vals),
        ir.eval(rvalue, m) is Some,
    ensures
        ({
            let held = ir.eval(rvalue, m)->0;
            match ir.output_types(rvalue)[0] {
                TypeFull::Int(width) => held matches Val::Int(number) && number <= width.mask(),
                TypeFull::Bool => held is Bool,
                TypeFull::HostPtr(_) => held is Int,
            }
        }),
{
    let ops = operands(ir, rvalue);
    assert(ops.len() > 0 ==> v.ready(ops[0]));
    assert(ops.len() > 1 ==> v.ready(ops[1]));
    assert(ops.len() > 2 ==> v.ready(ops[2]));
    match rvalue {
        StmtKind::ArithBinOp { op, lhs, rhs } => {
            let (a, b) = (m.number(lhs), m.number(rhs));
            let width = ir.width(lhs);
            match op {
                ArithBinOp::Add => lemma_wrap_below(width, a + b),
                ArithBinOp::Sub => lemma_wrap_below(width, a - b),
                ArithBinOp::Mul => lemma_wrap_below(width, a * b),
                ArithBinOp::UncheckedUDiv => {
                    assert(0 <= a as int / b as int <= a) by (nonlinear_arith)
                        requires
                            b > 0,
                    ;
                },
                ArithBinOp::UncheckedSDiv => lemma_wrap_below(
                    width,
                    truncated_div(width.signed(a), width.signed(b)),
                ),
            }
        },
        StmtKind::IntNeg(value) => lemma_wrap_below(ir.width(value), -(m.number(value) as int)),
        StmtKind::Bitwise { op, lhs, rhs } => {
            if ir.ty(lhs) is Int {
                lemma_bits_fit(op, ir.width(lhs), m.number(lhs), m.number(rhs));
            }
        },
        StmtKind::BitwiseImm { op, lhs, rhs } => {
            lemma_bits_fit(op, ir.width(lhs), m.number(lhs), rhs);
        },
        StmtKind::Shift { op, value, shift } => {
            let width = ir.width(value);
            let by = m.number(shift) as int % width.spec_bits();
            lemma_shifted_fits(op, width, m.number(value), by);
        },
        StmtKind::ShiftUnbounded { op, value, shift } => {
            let width = ir.width(value);
            lemma_shifted_fits(op, width, m.number(value), m.number(shift) as int);
            lemma_shifted_fits(op, width, m.number(value), width.spec_bits() - 1);
        },
        StmtKind::ShiftImm { op, value, shift } => {
            lemma_shifted_fits(op, ir.width(value), m.number(value), shift as int);
        },
        _ => {},
    }
}

/// Something has been added to the tables and to the current block, and
/// nothing else has changed.
#[verifier::opaque]
pub open spec fn grown(v: LowerView, w: LowerView) -> bool {
    &&& w == (LowerView { types: w.types, blocks: w.blocks, lists: w.lists, ..v })
    &&& w.blocks.len() == v.blocks.len()
    &&& v.types.is_prefix_of(w.types)
    &&& v.lists.is_prefix_of(w.lists)
    &&& v.blocks[v.current as int].insts.is_prefix_of(w.blocks[v.current as int].insts)
    &&& w.blocks[v.current as int].params == v.blocks[v.current as int].params
    &&& w.blocks[v.current as int].cold == v.blocks[v.current as int].cold
    &&& forall|k: int|
        0 <= k < v.blocks.len() && k != v.current ==> #[trigger] w.blocks[k] == v.blocks[k]
}

pub proof fn lemma_ins_grows(v: LowerView, op: ClifOp, results: Seq<ClifTy>)
    requires
        v.current < v.blocks.len(),
    ensures
        grown(v, v.ins(op, results)),
        v.ins(op, results).current < v.ins(op, results).blocks.len(),
{
    reveal(grown);
}

pub proof fn lemma_list_grows(v: LowerView, items: Seq<u64>)
    requires
        v.current < v.blocks.len(),
    ensures
        grown(v, v.list(items).0),
{
    reveal(grown);
}

pub proof fn lemma_grown_on(a: LowerView, b: LowerView, c: LowerView)
    requires
        grown(a, b),
        grown(b, c),
    ensures
        grown(a, c),
{
    reveal(grown);
}

pub proof fn lemma_grown_self(v: LowerView)
    ensures
        grown(v, v),
{
    reveal(grown);
}

proof fn lemma_ptr_add_grows(v: LowerView, base_ptr: SSAValue, offset: SSAValue, elem_size: usize)
    requires
        v.current < v.blocks.len(),
    ensures
        grown(v, v.ptr_add(base_ptr, offset, elem_size).0),
{
    let ptr_ty = v.ptr_ty;
    let bits = v.ty(offset).spec_bits();
    let (v1, wide) = if bits < ptr_ty.spec_bits() {
        v.ins1(ClifOp::Uextend { ty: ptr_ty, value: v.val(offset) }, ptr_ty)
    } else if bits == ptr_ty.spec_bits() {
        (v, v.val(offset))
    } else {
        v.ins1(ClifOp::Ireduce { ty: ptr_ty, value: v.val(offset) }, ptr_ty)
    };
    lemma_grown_self(v);
    lemma_grown_self(v1);
    lemma_ins_grows(v, ClifOp::Uextend { ty: ptr_ty, value: v.val(offset) }, seq![ptr_ty]);
    lemma_ins_grows(v, ClifOp::Ireduce { ty: ptr_ty, value: v.val(offset) }, seq![ptr_ty]);
    let scale = ClifOp::BinaryImm { op: ClifBinary::Imul, lhs: wide, imm: elem_size as u64 };
    lemma_ins_grows(v1, scale, seq![ptr_ty]);
    let (v2, scaled) = if elem_size == 1 {
        (v1, wide)
    } else {
        v1.ins1(scale, ptr_ty)
    };
    lemma_grown_on(v, v1, v2);
    let op = ClifOp::Binary { op: ClifBinary::Iadd, lhs: v.val(base_ptr), rhs: scaled };
    lemma_ins_grows(v2, op, seq![ptr_ty]);
    lemma_grown_on(v, v2, v2.ins1(op, ptr_ty).0);
}

/// Lowering a statement only adds something.
#[verifier::spinoff_prover]
#[verifier::rlimit(60)]
pub proof fn lemma_lower_grows(ir: IrView, v: LowerView, rvalue: StmtKind)
    requires
        v.current < v.blocks.len(),
    ensures
        grown(v, v.lower(ir, rvalue).0),
{
    let w = v.lower(ir, rvalue).0;
    assert forall|op: ClifOp, ty: ClifTy| grown(v, #[trigger] v.ins(op, seq![ty])) by {
        lemma_ins_grows(v, op, seq![ty]);
    }
    match rvalue {
        StmtKind::OverflowingBinOp { op, lhs, rhs } => {
            lemma_ins_grows(
                v,
                ClifOp::Overflowing { op, lhs: v.val(lhs), rhs: v.val(rhs) },
                seq![v.ty(lhs), ClifTy::I8],
            );
        },
        StmtKind::ShiftUnbounded { op, value, shift } => {
            lemma_shift_grows(v, op, value, shift);
        },
        StmtKind::StoreHost { base_ptr, offset, value, can_move } => {
            let flags = host_flags(can_move, ir.ty(base_ptr)->HostPtr_0);
            let op = ClifOp::Store {
                flags,
                value: v.val(value),
                base: v.val(base_ptr),
                offset: offset as u32,
            };
            lemma_ins_grows(v, op, Seq::empty());
        },
        StmtKind::PtrAdd { base_ptr, offset, elem_size } => {
            lemma_ptr_add_grows(v, base_ptr, offset, elem_size);
        },
        StmtKind::HostCallback { func, signature, args } => {
            lemma_call_grows(ir, v, func, signature, args);
        },
        StmtKind::VMLoadRaw { aligned_page_ptr, page_offset, width, seq_cst: _ } => {
            lemma_ptr_add_grows(v, aligned_page_ptr, page_offset, 1);
            let (v1, ptr) = v.ptr_add(aligned_page_ptr, page_offset, 1);
            let ty = spec_int_ty(width);
            let op = ClifOp::AtomicLoad { ty, flags: guest_flags(), ptr };
            lemma_ins_grows(v1, op, seq![ty]);
            lemma_grown_on(v, v1, w);
        },
        StmtKind::VMStoreRaw { aligned_page_ptr, page_offset, value, seq_cst: _ } => {
            lemma_ptr_add_grows(v, aligned_page_ptr, page_offset, 1);
            let (v1, ptr) = v.ptr_add(aligned_page_ptr, page_offset, 1);
            let op = ClifOp::AtomicStore { flags: guest_flags(), value: v.val(value), ptr };
            lemma_ins_grows(v1, op, Seq::empty());
            lemma_grown_on(v, v1, w);
        },
        StmtKind::TakeHaltReason => {
            let (v1, zero) = v.ins1(ClifOp::Iconst { ty: ClifTy::I32, bits: 0 }, ClifTy::I32);
            let op = ClifOp::AtomicRmw {
                ty: ClifTy::I32,
                flags: host_flags(false, AliasRegion::HaltReason),
                op: ClifRmw::Xchg,
                ptr: v.val(Arg::HaltReasonPtr.spec_value()),
                value: zero,
            };
            lemma_ins_grows(v1, op, seq![ClifTy::I32]);
            lemma_grown_on(v, v1, w);
        },
        StmtKind::SetPageDirtyFlag(ptr) => {
            let (v1, flag) = v.ins1(
                ClifOp::Iconst { ty: ClifTy::I8, bits: PAGE_DIRTY_FLAG as u64 },
                ClifTy::I8,
            );
            let op = ClifOp::AtomicRmw {
                ty: ClifTy::I8,
                flags: host_flags(false, AliasRegion::PageFlags),
                op: ClifRmw::Or,
                ptr: v.val(ptr),
                value: flag,
            };
            lemma_ins_grows(v1, op, seq![ClifTy::I8]);
            lemma_grown_on(v, v1, w);
        },
        StmtKind::Safepoint => lemma_grown_self(v),
        _ => {},
    }
}

proof fn lemma_shift_grows(v: LowerView, op: ShiftOp, value: SSAValue, shift: SSAValue)
    requires
        v.current < v.blocks.len(),
    ensures
        grown(v, v.shift_unbounded(op, value, shift).0),
{
    reveal(grown);
    let ty = v.ty(value);
    let w = v.shift_unbounded(op, value, shift).0;
    assert(w.types =~= v.types + seq![ClifTy::I8, ty, ty, ty]);
    let before = v.blocks[v.current as int].insts;
    let after = w.blocks[v.current as int].insts;
    assert(after.len() == before.len() + 4);
    assert(forall|i: int| 0 <= i < before.len() ==> after[i] == before[i]);
}

proof fn lemma_call_grows(
    ir: IrView,
    v: LowerView,
    func: HostCallback,
    signature: CallbackSignature,
    args: CallArgs,
)
    requires
        v.current < v.blocks.len(),
    ensures
        grown(v, v.lower(ir, StmtKind::HostCallback { func, signature, args }).0),
{
    let w = v.lower(ir, StmtKind::HostCallback { func, signature, args }).0;
    let items = v.vals(ir.calls[args.index as int]);
    let (v1, list) = v.list(items);
    lemma_list_grows(v, items);
    let (v2, callee) = v1.ins1(ClifOp::FuncAddr { func }, v.ptr_ty);
    lemma_ins_grows(v1, ClifOp::FuncAddr { func }, seq![v.ptr_ty]);
    lemma_grown_on(v, v1, v2);
    let op = ClifOp::CallIndirect { signature, callee, args: list };
    match signature.spec_ret() {
        Some(ty) => lemma_ins_grows(v2, op, seq![spec_clif_ty(v.ptr_ty, ty)]),
        None => lemma_ins_grows(v2, op, Seq::empty()),
    }
    lemma_grown_on(v, v2, w);
}

/// What a computation on numbers does.
proof fn lemma_pure(
    ir: IrView,
    v: LowerView,
    image: Image,
    host: Host,
    types: Seq<ClifTy>,
    lists: Seq<Seq<u64>>,
    stmt: StmtView,
    m: Machine,
    mem: HostMem,
    c: ClifState,
)
    requires
        set_up(ir, v, image, host, types, lists, stmt, m, mem, c),
        is_pure(stmt.rvalue),
        ir.exec(host, stmt, m, mem) is Some,
    ensures
        carried_on(ir, v, image, host, types, lists, stmt, m, mem, c),
{
    let rvalue = stmt.rvalue;
    let (w, outs) = v.lower(ir, rvalue);
    lemma_lower_grows(ir, v, rvalue);
    reveal(grown);
    lemma_pure_shape(ir, v, rvalue);
    law_lowering_keeps_meaning(ir, v, rvalue, m, c.vals);
    lemma_eval_fits(ir, v, rvalue, m, c.vals);
    let insts = new_insts(v, w);
    assert forall|i: int| 0 <= i < insts.len() implies looks_below(
        (#[trigger] insts[i]).op,
        w.types.len(),
    ) by {
        assert(looks_below(insts[i].op, v.types.len()));
    }
    lemma_run_below(insts, w.types, types, c.vals);
    lemma_pure_all(image, host, types, lists, insts, c);
    lemma_run_framed(insts, types, c.vals, v.types.len(), w.types.len());
    let c1 = ClifState { vals: clif_run(insts, types, c.vals)->0, ..c };
    assert(stmt.outputs[0] < ir.types.len());
    let held = ir.eval(rvalue, m)->0;
    assert(ir.eval_host(rvalue, m, mem) == Some(held));
    lemma_carried_one(ir, v, image, host, types, lists, stmt, m, mem, c, c1, held);
}

/// What looking at the halt reason does.
proof fn lemma_load_halt(
    ir: IrView,
    v: LowerView,
    image: Image,
    host: Host,
    types: Seq<ClifTy>,
    lists: Seq<Seq<u64>>,
    stmt: StmtView,
    m: Machine,
    mem: HostMem,
    c: ClifState,
)
    requires
        set_up(ir, v, image, host, types, lists, stmt, m, mem, c),
        stmt.rvalue is LoadHaltReason,
    ensures
        carried_on(ir, v, image, host, types, lists, stmt, m, mem, c),
{
    let t = v.types.len() as u64;
    let inst = ClifInst {
        op: ClifOp::AtomicLoad {
            ty: ClifTy::I32,
            flags: host_flags(false, AliasRegion::HaltReason),
            ptr: v.val(Arg::HaltReasonPtr.spec_value()),
        },
        result: t,
    };
    let v1 = v.lower(ir, stmt.rvalue).0;
    assert(new_insts(v, v1) =~= seq![inst]);
    lemma_all_one(image, host, types, lists, inst, c);
    let c1 = ClifState { mem: mem.looked(), ..c.set(t, mem.halt()) };
    assert(clif_do(image, host, types, lists, inst, c) == Some(c1));
    assert(stmt.outputs[0] < ir.types.len());
    lemma_carried_one(
        ir,
        v,
        image,
        host,
        types,
        lists,
        stmt,
        m,
        mem,
        c,
        c1,
        Val::Int(mem.halt()),
    );
}

/// What taking the halt reason does.
proof fn lemma_take_halt(
    ir: IrView,
    v: LowerView,
    image: Image,
    host: Host,
    types: Seq<ClifTy>,
    lists: Seq<Seq<u64>>,
    stmt: StmtView,
    m: Machine,
    mem: HostMem,
    c: ClifState,
)
    requires
        set_up(ir, v, image, host, types, lists, stmt, m, mem, c),
        stmt.rvalue is TakeHaltReason,
    ensures
        carried_on(ir, v, image, host, types, lists, stmt, m, mem, c),
{
    let t = v.types.len() as u64;
    let i1 = ClifInst { op: ClifOp::Iconst { ty: ClifTy::I32, bits: 0 }, result: t };
    let i2 = ClifInst {
        op: ClifOp::AtomicRmw {
            ty: ClifTy::I32,
            flags: host_flags(false, AliasRegion::HaltReason),
            op: ClifRmw::Xchg,
            ptr: v.val(Arg::HaltReasonPtr.spec_value()),
            value: t,
        },
        result: (t + 1) as u64,
    };
    let v1 = v.lower(ir, stmt.rvalue).0;
    assert(v1.types =~= v.types + seq![ClifTy::I32, ClifTy::I32]);
    assert(new_insts(v, v1) =~= seq![i1, i2]);
    lemma_all_two(image, host, types, lists, i1, i2, c);
    let c1 = clif_do(image, host, types, lists, i1, c)->0;
    let c2 = ClifState { mem: mem.exchanged(0), ..c1.set((t + 1) as u64, mem.halt()) };
    assert(clif_do(image, host, types, lists, i2, c1) == Some(c2));
    assert(stmt.outputs[0] < ir.types.len());
    lemma_carried_one(
        ir,
        v,
        image,
        host,
        types,
        lists,
        stmt,
        m,
        mem,
        c,
        c2,
        Val::Int(mem.halt()),
    );
}

/// Lowering keeps what a statement does: if the lowered code is where the IR
/// is, running what the statement was lowered to brings it where the
/// statement brings the IR.
pub proof fn law_lowering_keeps_statement(
    ir: IrView,
    v: LowerView,
    image: Image,
    host: Host,
    types: Seq<ClifTy>,
    lists: Seq<Seq<u64>>,
    stmt: StmtView,
    m: Machine,
    mem: HostMem,
    c: ClifState,
)
    requires
        set_up(ir, v, image, host, types, lists, stmt, m, mem, c),
        ir.exec(host, stmt, m, mem) is Some,
    ensures
        carried_on(ir, v, image, host, types, lists, stmt, m, mem, c),
{
    match stmt.rvalue {
        StmtKind::LoadHost { .. } => {
            lemma_load_host(ir, v, image, host, types, lists, stmt, m, mem, c);
        },
        StmtKind::StoreHost { .. } => {
            lemma_store_host(ir, v, image, host, types, lists, stmt, m, mem, c);
        },
        StmtKind::LoadStackPtr { .. } => {
            lemma_stack_ptr(ir, v, image, host, types, lists, stmt, m, mem, c);
        },
        StmtKind::PtrAdd { .. } => {
            lemma_ptr_add(ir, v, image, host, types, lists, stmt, m, mem, c);
        },
        StmtKind::PtrEq(_, _) => {
            lemma_ptr_eq(ir, v, image, host, types, lists, stmt, m, mem, c);
        },
        StmtKind::HasTag { .. } => {
            lemma_has_tag(ir, v, image, host, types, lists, stmt, m, mem, c);
        },
        StmtKind::Untag { .. } => {
            lemma_untag(ir, v, image, host, types, lists, stmt, m, mem, c);
        },
        StmtKind::HostCallback { .. } => {
            lemma_callback(ir, v, image, host, types, lists, stmt, m, mem, c);
        },
        StmtKind::VMLoadRaw { .. } => {
            lemma_vm_load(ir, v, image, host, types, lists, stmt, m, mem, c);
        },
        StmtKind::VMStoreRaw { .. } => {
            lemma_vm_store(ir, v, image, host, types, lists, stmt, m, mem, c);
        },
        StmtKind::OverflowingBinOp { .. } => {
            lemma_overflow(ir, v, image, host, types, lists, stmt, m, mem, c);
        },
        StmtKind::SetPageDirtyFlag(_) => {
            lemma_dirty_flag(ir, v, image, host, types, lists, stmt, m, mem, c);
        },
        StmtKind::Safepoint => {
            lemma_safepoint(ir, v, image, host, types, lists, stmt, m, mem, c);
        },
        StmtKind::LoadHaltReason => {
            lemma_load_halt(ir, v, image, host, types, lists, stmt, m, mem, c);
        },
        StmtKind::TakeHaltReason => {
            lemma_take_halt(ir, v, image, host, types, lists, stmt, m, mem, c);
        },
        _ => {
            lemma_pure(ir, v, image, host, types, lists, stmt, m, mem, c);
        },
    }
}

} // verus!
