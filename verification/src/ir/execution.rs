//! How the code of a function runs: statement by statement and block by
//! block, on the memory of the host.
//!
//! Pointers are addresses. The host's own functions are a parameter: what
//! they do to memory is theirs to say.
use vstd::prelude::*;
use crate::ir::model::{IrView, StmtView};
use crate::ir::semantics::{Machine, Val};
use crate::ir::types::{Arg, HostCallback, JumpView, LoadType, SSAValue, StmtKind, TerminatorView};
use crate::memops::{le_value, to_le, window};
use crate::page_store::splice;

verus! {

/// The memory that compiled code works on besides the guest CPU's state.
#[verifier::ext_equal]
pub struct HostMem {
    /// Plain fields, by their addresses.
    pub cells: Map<int, u64>,
    /// The pages of guest memory, by their addresses.
    pub pages: Map<u64, Seq<u8>>,
    /// The page flags in which a store has been noted.
    pub noted: Set<u64>,
    /// Where the stack slots are.
    pub stack: Map<u64, u64>,
    /// What others have set the halt reason to before each look at it, since
    /// the look before: they do so at any time.
    pub halts: spec_fn(nat) -> Option<u32>,
    /// How often the halt reason has been looked at.
    pub looks: nat,
    /// The halt reason as the last look has left it.
    pub halt_word: u32,
}

impl HostMem {
    /// What the next look at the halt reason finds.
    pub open spec fn halt(self) -> u64 {
        match (self.halts)(self.looks) {
            Some(reason) => reason as u64,
            None => self.halt_word as u64,
        }
    }

    /// The halt reason has been looked at, and stays.
    pub open spec fn looked(self) -> HostMem {
        self.exchanged(self.halt())
    }

    /// The halt reason has been looked at, and `word` was left in its place.
    pub open spec fn exchanged(self, word: u64) -> HostMem {
        HostMem { looks: self.looks + 1, halt_word: word as u32, ..self }
    }
}

/// What the functions of the host do: they get the numbers of their
/// arguments, and give a status.
pub type Host = spec_fn(HostCallback, Seq<u64>, HostMem) -> (HostMem, u64);

/// Where a run is: in a block with that many statements done, or back at the
/// caller. Code without a meaning gets stuck.
pub enum Flow {
    At { block: int, done: int, m: Machine, mem: HostMem },
    Returned { code: u64, m: Machine, mem: HostMem },
    Stuck,
}

/// An address and an offset from it.
pub open spec fn displaced(base: u64, offset: int) -> int {
    base + offset
}

impl IrView {
    /// The value that a statement with one output computes.
    pub open spec fn eval_host(self, rvalue: StmtKind, m: Machine, mem: HostMem) -> Option<Val> {
        match rvalue {
            StmtKind::LoadHost { ty, base_ptr, offset, can_move: _ } => if base_ptr
                == Arg::ExecState.spec_value() {
                self.eval(rvalue, m)
            } else if m.has_int(base_ptr) && mem.cells.contains_key(
                displaced(m.number(base_ptr), offset as int),
            ) {
                let cell = mem.cells[displaced(m.number(base_ptr), offset as int)];
                match ty {
                    LoadType::Int(width) => Some(Val::Int(width.wrap(cell as int))),
                    LoadType::HostPtr(_) => Some(Val::Int(cell)),
                }
            } else {
                None
            },
            StmtKind::LoadStackPtr { slot } => if mem.stack.contains_key(slot.index) {
                Some(Val::Int(mem.stack[slot.index]))
            } else {
                None
            },
            StmtKind::PtrAdd { base_ptr, offset, elem_size } => if m.has_int(base_ptr)
                && m.has_int(offset) && displaced(
                m.number(base_ptr),
                m.number(offset) * elem_size,
            ) <= u64::MAX {
                Some(
                    Val::Int(
                        displaced(m.number(base_ptr), m.number(offset) * elem_size) as u64,
                    ),
                )
            } else {
                None
            },
            StmtKind::PtrEq(a, b) => if m.has_int(a) && m.has_int(b) {
                Some(Val::Bool(m.number(a) == m.number(b)))
            } else {
                None
            },
            StmtKind::HasTag { ptr, tag_bits } => if m.has_int(ptr) {
                Some(Val::Bool(m.number(ptr) & (tag_bits as u64) != 0))
            } else {
                None
            },
            StmtKind::Untag { ptr, tag_bits } => if m.has_int(ptr) {
                Some(Val::Int(m.number(ptr) & !(tag_bits as u64)))
            } else {
                None
            },
            StmtKind::VMLoadRaw { aligned_page_ptr, page_offset, width, seq_cst: _ } => if m.has_int(
                aligned_page_ptr,
            ) && m.has_int(page_offset) && mem.pages.contains_key(m.number(aligned_page_ptr))
                && m.number(page_offset) + width.spec_bytes() <= mem.pages[m.number(
                aligned_page_ptr,
            )].len() {
                Some(
                    Val::Int(
                        le_value(
                            window(
                                mem.pages[m.number(aligned_page_ptr)],
                                m.number(page_offset) as int,
                                width.spec_bytes(),
                            ),
                        ) as u64,
                    ),
                )
            } else {
                None
            },
            _ => self.eval(rvalue, m),
        }
    }

    /// The output of a statement that looks at the halt reason.
    pub open spec fn halted(self, stmt: StmtView, m: Machine, mem: HostMem) -> Machine {
        Machine { env: m.env.insert(stmt.outputs[0], Val::Int(mem.halt())), ..m }
    }

    /// What a statement does, if it has a meaning.
    pub open spec fn exec(self, host: Host, stmt: StmtView, m: Machine, mem: HostMem) -> Option<
        (Machine, HostMem),
    > {
        match stmt.rvalue {
            StmtKind::StoreHost { base_ptr, offset, value, can_move: _ } => if base_ptr
                == Arg::ExecState.spec_value() {
                match self.step(stmt, m) {
                    Some(after) => Some((after, mem)),
                    None => None,
                }
            } else if m.has_int(base_ptr) && m.has_int(value) {
                Some(
                    (
                        m,
                        HostMem {
                            cells: mem.cells.insert(
                                displaced(m.number(base_ptr), offset as int),
                                m.number(value),
                            ),
                            ..mem
                        },
                    ),
                )
            } else {
                None
            },
            StmtKind::VMStoreRaw { aligned_page_ptr, page_offset, value, seq_cst: _ } => {
                let bytes = self.width(value).spec_bytes();
                if m.has_int(aligned_page_ptr) && m.has_int(page_offset) && m.has_int(value)
                    && mem.pages.contains_key(m.number(aligned_page_ptr)) && m.number(page_offset)
                    + bytes <= mem.pages[m.number(aligned_page_ptr)].len() {
                    let page = m.number(aligned_page_ptr);
                    Some(
                        (
                            m,
                            HostMem {
                                pages: mem.pages.insert(
                                    page,
                                    splice(
                                        mem.pages[page],
                                        m.number(page_offset) as int,
                                        to_le(m.number(value) as nat, bytes as nat),
                                    ),
                                ),
                                ..mem
                            },
                        ),
                    )
                } else {
                    None
                }
            },
            StmtKind::SetPageDirtyFlag(ptr) => if m.has_int(ptr) {
                Some((m, HostMem { noted: mem.noted.insert(m.number(ptr)), ..mem }))
            } else {
                None
            },
            StmtKind::HostCallback { func, signature: _, args } => {
                let values = self.calls[args.index as int];
                if forall|i: int|
                    0 <= i < values.len() ==> m.has_int(
                        SSAValue { index: #[trigger] values[i] },
                    ) {
                    let numbers = Seq::new(
                        values.len(),
                        |i: int| m.number(SSAValue { index: values[i] }),
                    );
                    let (after, status) = host(func, numbers, mem);
                    Some(
                        (
                            if stmt.outputs.len() == 0 {
                                m
                            } else {
                                Machine {
                                    env: m.env.insert(stmt.outputs[0], Val::Int(status)),
                                    ..m
                                }
                            },
                            HostMem { stack: mem.stack, ..after },
                        ),
                    )
                } else {
                    None
                }
            },
            StmtKind::OverflowingBinOp { .. } => match self.step(stmt, m) {
                Some(after) => Some((after, mem)),
                None => None,
            },
            StmtKind::LoadHaltReason => Some((self.halted(stmt, m, mem), mem.looked())),
            StmtKind::TakeHaltReason => Some((self.halted(stmt, m, mem), mem.exchanged(0))),
            StmtKind::Safepoint => Some((m, mem)),
            _ => match self.eval_host(stmt.rvalue, m, mem) {
                Some(value) => Some(
                    (Machine { env: m.env.insert(stmt.outputs[0], value), ..m }, mem),
                ),
                None => None,
            },
        }
    }

    /// Where a branch edge leads: the parameters of the block hold what was
    /// passed.
    pub open spec fn follow(self, jump: JumpView, m: Machine, mem: HostMem) -> Flow {
        let params = self.block(jump.target).parameters;
        if params.len() == jump.parameters.len() && forall|i: int|
            0 <= i < params.len() ==> m.env.contains_key(#[trigger] jump.parameters[i]) {
            Flow::At {
                block: jump.target.index as int,
                done: 0,
                m: Machine { env: bound(m.env, params, jump.parameters, params.len()), ..m },
                mem,
            }
        } else {
            Flow::Stuck
        }
    }

    /// One statement, or the end of a block.
    pub open spec fn advance(self, host: Host, flow: Flow) -> Flow {
        match flow {
            Flow::At { block, done, m, mem } => {
                let code = self.blocks[block];
                if done < code.stmts.len() {
                    match self.exec(host, self.stmts[code.stmts[done].index as int], m, mem) {
                        Some((m2, mem2)) => Flow::At { block, done: done + 1, m: m2, mem: mem2 },
                        None => Flow::Stuck,
                    }
                } else {
                    match code.terminator {
                        TerminatorView::Return => Flow::Returned { code: 0, m, mem },
                        TerminatorView::ReturnCode(value) => if m.has_int(value) {
                            Flow::Returned { code: m.number(value), m, mem }
                        } else {
                            Flow::Stuck
                        },
                        TerminatorView::Br(jump) => self.follow(jump, m, mem),
                        TerminatorView::BrZ(cond, zero, non_zero) => if !decided(m, cond) {
                            Flow::Stuck
                        } else if is_set(m, cond) {
                            self.follow(non_zero, m, mem)
                        } else {
                            self.follow(zero, m, mem)
                        },
                    }
                }
            },
            _ => flow,
        }
    }

    /// Where a run is `n` steps after `flow`.
    pub open spec fn after(self, host: Host, flow: Flow, n: nat) -> Flow
        decreases n,
    {
        if n == 0 {
            flow
        } else {
            self.advance(host, self.after(host, flow, (n - 1) as nat))
        }
    }

    /// A run comes from `a` to `b`.
    pub open spec fn comes_to(self, host: Host, a: Flow, b: Flow) -> bool {
        exists|n: nat| #[trigger] self.after(host, a, n) == b
    }
}

/// The environment once the first `n` parameters hold what was passed.
pub open spec fn bound(env: Map<u64, Val>, params: Seq<u64>, args: Seq<u64>, n: nat) -> Map<u64, Val>
    decreases n,
{
    if n == 0 {
        env
    } else {
        bound(env, params, args, (n - 1) as nat).insert(params[n - 1], env[args[n - 1]])
    }
}

/// A branch can be decided by the value.
pub open spec fn decided(m: Machine, cond: SSAValue) -> bool {
    m.has_bool(cond) || m.has_int(cond)
}

/// A boolean that is true, or a number that is not zero.
pub open spec fn is_set(m: Machine, cond: SSAValue) -> bool {
    if m.has_bool(cond) {
        m.truth(cond)
    } else {
        m.number(cond) != 0
    }
}

/// A run that comes to `b` makes its next step there.
pub proof fn lemma_comes_next(v: IrView, host: Host, a: Flow, b: Flow)
    requires
        v.comes_to(host, a, b),
    ensures
        v.comes_to(host, a, v.advance(host, b)),
{
    let n = choose|n: nat| #[trigger] v.after(host, a, n) == b;
    assert(v.after(host, a, n + 1) == v.advance(host, b));
}

pub proof fn lemma_comes_self(v: IrView, host: Host, a: Flow)
    ensures
        v.comes_to(host, a, a),
{
    assert(v.after(host, a, 0) == a);
}

} // verus!
