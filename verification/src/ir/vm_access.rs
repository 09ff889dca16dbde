//! Guest memory accesses: an inlined translation lookup with a fallback into
//! the host, and the exclusive accesses, which always go to the host.
use vstd::prelude::*;
use crate::exec_context::MemOp;
use crate::inline_list::InlineList;
use crate::ir::builder::{emitted, ExecIrBuilder};
use crate::ffi_support::StrexStatus;
use crate::ir::compose::{constant, edge, equals};
use crate::ir::emit::emitted1;
use crate::ir::layout::{
    mem_op_code, spec_mem_op_code, HaltReason, FAULT_MEM_OP_OFFSET, FAULT_PENDING_OFFSET,
    FAULT_VADDR_OFFSET, PAGE_NUMBER_SHIFT, PAGE_OFFSET_MASK, TAG_ALL, TAG_MUST_DIRTY, TAG_READ,
    TAG_WRITE, TLB_ENTRY_SIZE, TLB_IDENT_OFFSET, TLB_MASK, TLB_PAGE_FLAGS_OFFSET,
    TLB_PAGE_NUMBER_OFFSET, TLB_TAGGED_PTR_OFFSET,
};
use crate::ir::model::{lemma_tables_grow, lemma_wf, moved_on, same_place, IrView};
use crate::ir::types::{
    load_callback, spec_load_callback, spec_store_callback, store_callback, AliasRegion, Arg,
    BitwiseOp, Block, CallArgs, CallbackSignature, HostCallback, IConst, IntCmp, IntWidth, Jump,
    JumpView, LoadType, SSAValue, ShiftOp, StackSlot, StackSlotData, StmtKind, Terminator,
    TerminatorView, Type, TypeFull,
};

verus! {

/// What is done to guest memory.
#[derive(Clone, Copy)]
pub enum VmAccessKind {
    Load { width: IntWidth },
    Store { value: SSAValue },
}

/// The part of an access that runs on the host.
pub struct FallbackAccess {
    /// Where it starts.
    pub block: Block,
    /// Where it has succeeded.
    pub ok_block: Block,
    /// The loaded value.
    pub value: Option<SSAValue>,
}

/// A load that may run ahead of any condition.
pub open spec fn free_load(ty: LoadType, base_ptr: SSAValue, offset: usize) -> StmtKind {
    StmtKind::LoadHost { ty, base_ptr, offset, can_move: true }
}

/// A store to the execution context.
pub open spec fn store_context(offset: usize, value: SSAValue) -> StmtKind {
    StmtKind::StoreHost {
        base_ptr: Arg::ExecContext.spec_value(),
        offset,
        value,
        can_move: true,
    }
}

/// The load of what the host has left in the scratch space. It is only safe
/// after the host has been called and has not trapped.
pub open spec fn scratch_load(width: IntWidth, base_ptr: SSAValue) -> StmtKind {
    StmtKind::LoadHost { ty: LoadType::Int(width), base_ptr, offset: 0, can_move: false }
}

/// The arguments of a host access.
pub open spec fn host_args(vaddr: SSAValue, arg: SSAValue) -> Seq<u64> {
    seq![
        Arg::IoMMU.spec_value().index,
        Arg::Tlb.spec_value().index,
        Arg::ExecContext.spec_value().index,
        vaddr.index,
        arg.index,
    ]
}

impl VmAccessKind {
    pub open spec fn spec_width(self, v: IrView) -> IntWidth {
        match self {
            VmAccessKind::Load { width } => width,
            VmAccessKind::Store { value } => v.width(value),
        }
    }

    /// The pointer tag that allows the access.
    pub open spec fn spec_tag(self) -> u8 {
        match self {
            VmAccessKind::Load { .. } => TAG_READ,
            VmAccessKind::Store { .. } => TAG_WRITE,
        }
    }

    pub open spec fn spec_op(self) -> MemOp {
        match self {
            VmAccessKind::Load { .. } => MemOp::Load,
            VmAccessKind::Store { .. } => MemOp::Store,
        }
    }

    /// A stored value is an integer.
    pub open spec fn ok(self, v: IrView) -> bool {
        match self {
            VmAccessKind::Load { .. } => true,
            VmAccessKind::Store { value } => v.has(value) && v.ty(value) is Int,
        }
    }

    pub fn width(&self, builder: &ExecIrBuilder) -> (r: IntWidth)
        requires
            self.ok(builder@),
        ensures
            r == self.spec_width(builder@),
    {
        match *self {
            VmAccessKind::Load { width } => width,
            VmAccessKind::Store { value } => builder.width_of(value),
        }
    }

    pub fn required_perms(&self) -> (r: u8)
        ensures
            r == self.spec_tag(),
    {
        match *self {
            VmAccessKind::Load { .. } => TAG_READ,
            VmAccessKind::Store { .. } => TAG_WRITE,
        }
    }

    pub fn mem_op(&self) -> (r: MemOp)
        ensures
            r == self.spec_op(),
    {
        match *self {
            VmAccessKind::Load { .. } => MemOp::Load,
            VmAccessKind::Store { .. } => MemOp::Store,
        }
    }
}

impl IrView {
    /// Remembers stack space for values that the host hands back.
    pub open spec fn with_scratch(self) -> IrView {
        match self.scratch_space {
            Some(_) => self,
            None => {
                let (v1, slot) = self.create_slot(8, 8);
                IrView { scratch_space: Some(slot), ..v1 }
            },
        }
    }

    /// A pointer to the scratch space.
    pub open spec fn scratch_ptr(self) -> (IrView, SSAValue) {
        let v1 = self.with_scratch();
        v1.emit1(StmtKind::LoadStackPtr { slot: v1.scratch_space->0 })
    }

    /// Loads through the host: calls it, leaves if it has trapped, and reads
    /// what it has left.
    pub open spec fn host_load(self, vaddr: SSAValue, width: IntWidth, exclusive: bool) -> (
        IrView,
        SSAValue,
    ) {
        let (func, signature) = spec_load_callback(width, exclusive);
        let (v1, ptr) = self.scratch_ptr();
        let (v2, status) = v1.call_host(func, signature, host_args(vaddr, ptr));
        let (v3, fail) = v2.halt_block(HaltReason::spec_memory_trap(width.spec_bytes() as u8));
        let (v4, _) = v3.assert_or_jmp_to(status, false, fail);
        v4.emit1(scratch_load(width, ptr))
    }

    /// Stores through the host: calls it, and leaves if it has trapped.
    pub open spec fn host_store(self, vaddr: SSAValue, value: SSAValue) -> IrView {
        let width = self.width(value);
        let (func, signature) = spec_store_callback(width, false);
        let (v1, status) = self.call_host(func, signature, host_args(vaddr, value));
        let (v2, fail) = v1.halt_block(HaltReason::spec_memory_trap(width.spec_bytes() as u8));
        let (v3, _) = v2.assert_or_jmp_to(status, false, fail);
        v3
    }

    /// Stores through the host if the reservation still holds. Gives the
    /// status, and leaves if the host has trapped.
    pub open spec fn strex(self, vaddr: SSAValue, value: SSAValue) -> (IrView, SSAValue) {
        let width = self.width(value);
        let (func, signature) = spec_store_callback(width, true);
        let (v1, status) = self.call_host(func, signature, host_args(vaddr, value));
        let (v2, failed) = v1.emit1(equals(status, StrexStatus::Fault.spec_code() as u64));
        let (v3, fail) = v2.halt_block(HaltReason::spec_memory_trap(width.spec_bytes() as u8));
        let (v4, _) = v3.assert_or_jmp_to(failed, false, fail);
        (v4, status)
    }

    /// The part of an access that runs on the host, in a cold block of its
    /// own.
    pub open spec fn fallback(self, vaddr: SSAValue, access: VmAccessKind) -> (
        IrView,
        FallbackAccess,
    ) {
        let (v1, block) = self.create_block();
        let v2 = v1.at(block).mark_cold(block);
        match access {
            VmAccessKind::Load { width } => {
                let (v3, value) = v2.host_load(vaddr, width, false);
                (
                    v3.at(self.current),
                    FallbackAccess { block, ok_block: v3.current, value: Some(value) },
                )
            },
            VmAccessKind::Store { value } => {
                let v3 = v2.host_store(vaddr, value);
                (
                    v3.at(self.current),
                    FallbackAccess { block, ok_block: v3.current, value: None },
                )
            },
        }
    }

    /// Looks for the page of `vaddr` in the TLB, and goes to `fallback` if it
    /// is not there. Gives the TLB entry.
    pub open spec fn tlb_probe(self, vaddr: SSAValue, fallback: Block) -> (IrView, SSAValue) {
        let (v1, page_number) = self.emit1(
            StmtKind::ShiftImm {
                op: ShiftOp::SignExtendShr,
                value: vaddr,
                shift: PAGE_NUMBER_SHIFT,
            },
        );
        let (v2, index) = v1.emit1(
            StmtKind::BitwiseImm { op: BitwiseOp::And, lhs: page_number, rhs: TLB_MASK },
        );
        let (v3, entry) = v2.emit1(
            StmtKind::PtrAdd {
                base_ptr: Arg::Tlb.spec_value(),
                offset: index,
                elem_size: TLB_ENTRY_SIZE,
            },
        );
        let (v4, ident) = v3.emit1(
            free_load(LoadType::HostPtr(AliasRegion::ReadOnly), entry, TLB_IDENT_OFFSET),
        );
        let (v5, ident_matches) = v4.emit1(
            StmtKind::PtrEq(ident, Arg::IoMMUIdentifier.spec_value()),
        );
        let (v6, _) = v5.assert_or_jmp_to(ident_matches, true, fallback);
        let (v7, found) = v6.emit1(
            free_load(LoadType::Int(IntWidth::W64), entry, TLB_PAGE_NUMBER_OFFSET),
        );
        let (v8, number_matches) = v7.emit1(
            StmtKind::IntCmp { predicate: IntCmp::Equal, lhs: page_number, rhs: found },
        );
        let (v9, _) = v8.assert_or_jmp_to(number_matches, true, fallback);
        (v9, entry)
    }

    /// Goes to `fallback` if `vaddr` is not aligned to the width. A byte is
    /// always aligned.
    pub open spec fn check_alignment(
        self,
        vaddr: SSAValue,
        width: IntWidth,
        fallback: Block,
    ) -> IrView {
        if width == IntWidth::W8 {
            self
        } else {
            let (v1, low) = self.emit1(
                StmtKind::BitwiseImm {
                    op: BitwiseOp::And,
                    lhs: vaddr,
                    rhs: (width.spec_bytes() - 1) as u64,
                },
            );
            let (v2, aligned) = v1.emit1(equals(low, 0));
            v2.assert_or_jmp_to(aligned, true, fallback).0
        }
    }

    /// Adds a cold block that records a fault at `vaddr` and returns a memory
    /// trap.
    pub open spec fn trap_block(self, vaddr: SSAValue, op: MemOp, width: IntWidth) -> (
        IrView,
        Block,
    ) {
        let (v1, fail) = self.create_block();
        let v2 = v1.at(fail).emit(store_context(FAULT_VADDR_OFFSET, vaddr));
        let (v3, code) = v2.emit1(constant(IntWidth::W8, spec_mem_op_code(op) as u64));
        let v4 = v3.emit(store_context(FAULT_MEM_OP_OFFSET, code));
        let (v5, pending) = v4.emit1(constant(IntWidth::W8, 1));
        let v6 = v5.emit(store_context(FAULT_PENDING_OFFSET, pending));
        let (v7, reason) = v6.emit1(
            constant(
                IntWidth::W32,
                HaltReason::spec_memory_trap(width.spec_bytes() as u8).code as u64,
            ),
        );
        (
            v7.terminate(fail, TerminatorView::ReturnCode(reason)).mark_cold(fail).at(self.current),
            fail,
        )
    }

    /// Notes a store in the page's flags if the page asks for it. Gives the
    /// block in which execution goes on.
    pub open spec fn note_dirty(self, tagged: SSAValue, entry: SSAValue) -> (IrView, Block) {
        let (v1, must_dirty) = self.emit1(
            StmtKind::HasTag { ptr: tagged, tag_bits: TAG_MUST_DIRTY },
        );
        let (v2, dirty) = v1.create_block();
        let (v3, continuation) = v2.assert_or_jmp_to(must_dirty, false, dirty);
        let (v4, flags) = v3.at(dirty).emit1(
            free_load(LoadType::HostPtr(AliasRegion::PageFlags), entry, TLB_PAGE_FLAGS_OFFSET),
        );
        let v5 = v4.emit(StmtKind::SetPageDirtyFlag(flags));
        (v5.terminate(dirty, TerminatorView::Br(edge(continuation))).at(continuation), continuation)
    }

    /// Joins the inlined load and the fallback in a block whose parameter is
    /// the loaded value.
    pub open spec fn merge_loads(
        self,
        width: IntWidth,
        inlined: SSAValue,
        ok_block: Block,
        fallback: SSAValue,
    ) -> (IrView, SSAValue) {
        let (v1, merge) = self.create_block();
        let (v2, param) = v1.at(merge).add_parameter(merge, TypeFull::Int(width));
        (
            v2.terminate(
                self.current,
                TerminatorView::Br(JumpView { parameters: seq![inlined.index], target: merge }),
            ).terminate(
                ok_block,
                TerminatorView::Br(JumpView { parameters: seq![fallback.index], target: merge }),
            ),
            param,
        )
    }

    /// An access to guest memory: through the TLB if it knows the page and
    /// the address is aligned, else through the host. If the page does not
    /// allow the access, a fault is recorded and the function returns.
    pub open spec fn vm_access(self, vaddr: SSAValue, access: VmAccessKind, seq_cst: bool) -> (
        IrView,
        Option<SSAValue>,
    ) {
        let width = access.spec_width(self);
        let (v1, fallback) = self.fallback(vaddr, access);
        let (v2, entry) = v1.tlb_probe(vaddr, fallback.block);
        let (v3, tagged) = v2.emit1(
            free_load(LoadType::HostPtr(AliasRegion::VirtualMemory), entry, TLB_TAGGED_PTR_OFFSET),
        );
        let (v4, offset) = v3.emit1(
            StmtKind::BitwiseImm { op: BitwiseOp::And, lhs: vaddr, rhs: PAGE_OFFSET_MASK },
        );
        let v5 = v4.check_alignment(vaddr, width, fallback.block);
        let (v6, allowed) = v5.emit1(
            StmtKind::HasTag { ptr: tagged, tag_bits: access.spec_tag() },
        );
        let (v7, trap) = v6.trap_block(vaddr, access.spec_op(), width);
        let (v8, _) = v7.assert_or_jmp_to(allowed, true, trap);
        let (v9, page) = v8.emit1(StmtKind::Untag { ptr: tagged, tag_bits: TAG_ALL });
        match access {
            VmAccessKind::Load { .. } => {
                let (v10, value) = v9.emit1(
                    StmtKind::VMLoadRaw {
                        aligned_page_ptr: page,
                        page_offset: offset,
                        width,
                        seq_cst,
                    },
                );
                let (v11, param) = v10.merge_loads(
                    width,
                    value,
                    fallback.ok_block,
                    fallback.value->0,
                );
                (v11, Some(param))
            },
            VmAccessKind::Store { value } => {
                let v10 = v9.emit(
                    StmtKind::VMStoreRaw {
                        aligned_page_ptr: page,
                        page_offset: offset,
                        value,
                        seq_cst,
                    },
                );
                let (v11, continuation) = v10.note_dirty(tagged, entry);
                (
                    v11.terminate(fallback.ok_block, TerminatorView::Br(edge(continuation))),
                    None,
                )
            },
        }
    }
}

impl ExecIrBuilder {
    /// Reserves `size` bytes of stack space with the given power-of-two
    /// alignment.
    pub fn create_stack_slot(&mut self, size: u32, align: u8) -> (r: StackSlot)
        requires
            old(self).wf(),
            align == 1 || align == 2 || align == 4 || align == 8 || align == 16 || align == 32
                || align == 64 || align == 128,
        ensures
            same_place(old(self)@, final(self)@),
            (final(self)@, r) == old(self)@.create_slot(size, align),
            r.index == old(self)@.slots.len(),
    {
        let r = StackSlot { index: self.stack_slots.len() as u64 };
        self.stack_slots.push(StackSlotData { size, align });
        proof {
            assert(self.stack_slots.len() == old(self)@.slots.len() + 1);
            lemma_wf(old(self)@);
            assert(self@ =~= old(self)@.create_slot(size, align).0);
            reveal(IrView::wf);
            lemma_tables_grow(old(self)@, self@);
        }
        r
    }

    /// Emits a statement producing a host pointer to `slot`.
    pub fn use_stack_slot(&mut self, slot: StackSlot) -> (r: SSAValue)
        requires
            old(self).wf(),
            slot.index < old(self)@.slots.len(),
        ensures
            emitted(old(self)@, final(self)@, StmtKind::LoadStackPtr { slot }),
            r == old(self)@.next(),
            r.index == old(self)@.types.len(),
    {
        self.emit_1ret_stmt(StmtKind::LoadStackPtr { slot })
    }

    fn get_scratch_space_ptr(&mut self) -> (r: SSAValue)
        requires
            old(self).wf(),
        ensures
            same_place(old(self)@, final(self)@),
            (final(self)@, r) == old(self)@.scratch_ptr(),
            final(self)@.has(r),
            final(self)@.ty(r) == TypeFull::HostPtr(AliasRegion::ScratchSpace),
            final(self)@.blocks.len() == old(self)@.blocks.len(),
    {
        proof {
            lemma_wf(self@);
        }
        let slot = match self.scratch_space {
            Some(slot) => slot,
            None => {
                let slot = self.create_stack_slot(8, 8);
                let ghost before = self@;
                self.scratch_space = Some(slot);
                proof {
                    reveal(IrView::wf);
                    assert(self@ =~= (IrView { scratch_space: Some(slot), ..before }));
                    lemma_tables_grow(before, self@);
                }
                slot
            },
        };
        self.use_stack_slot(slot)
    }

    /// Calls a function of the host. The arguments must have the types of
    /// the signature.
    pub fn call_host(
        &mut self,
        host_cb: HostCallback,
        signature: CallbackSignature,
        args: InlineList,
    ) -> (r: Option<SSAValue>)
        requires
            old(self).wf(),
            old(self)@.fits(signature, args@),
        ensures
            same_place(old(self)@, final(self)@),
            final(self)@ == old(self)@.call_host(host_cb, signature, args@).0,
            r == (match signature.spec_ret() {
                Some(_) => Some(old(self)@.next()),
                None => None,
            }),
            final(self)@.blocks.len() == old(self)@.blocks.len(),
            signature.spec_ret() matches Some(ty) ==> final(self)@.types == old(self)@.types.push(
                ty,
            ) && old(self)@.next().index == old(self)@.types.len(),
            signature.spec_ret() is None ==> final(self)@.types == old(self)@.types,
    {
        let index: u64 = self.calls.len() as u64;
        self.calls.push(args);
        proof {
            assert(self.calls.len() == old(self)@.calls.len() + 1);
            lemma_wf(old(self)@);
            assert(self@ =~= (IrView { calls: old(self)@.calls.push(args@), ..old(self)@ }));
            reveal(IrView::wf);
            lemma_tables_grow(old(self)@, self@);
        }
        let ghost called = self@;
        let stmt = StmtKind::HostCallback { func: host_cb, signature, args: CallArgs { index } };
        assert(called.fits(signature, called.calls[index as int]));
        match signature.ret() {
            Some(ret) => {
                let value = self.emit_1ret_stmt(stmt);
                assert(self@.types =~= old(self)@.types.push(ret));
                Some(value)
            },
            None => {
                self.emit_void_stmt(stmt);
                assert(self@.types =~= old(self)@.types);
                None
            },
        }
    }
}

/// The arguments of a host access.
fn host_arg_list(vaddr: SSAValue, arg: SSAValue) -> (r: InlineList)
    ensures
        r@ == host_args(vaddr, arg),
{
    let mut args = InlineList::new();
    args.push(Arg::IoMMU.as_ssa_value().index);
    args.push(Arg::Tlb.as_ssa_value().index);
    args.push(Arg::ExecContext.as_ssa_value().index);
    args.push(vaddr.index);
    args.push(arg.index);
    assert(args@ =~= host_args(vaddr, arg));
    args
}

/// The arguments of a host access have the types of its signature.
proof fn lemma_host_args(v: IrView, signature: CallbackSignature, vaddr: SSAValue, arg: SSAValue)
    requires
        v.wf(),
        v.is_int(vaddr, IntWidth::W64),
        v.has(arg),
        signature is Load || signature is Store,
        v.ty(arg) == signature.spec_args()[4],
    ensures
        v.fits(signature, host_args(vaddr, arg)),
{
    lemma_wf(v);
    assert(v.ty(Arg::IoMMU.spec_value()) == Arg::IoMMU.spec_ty());
    assert(v.ty(Arg::Tlb.spec_value()) == Arg::Tlb.spec_ty());
    assert(v.ty(Arg::ExecContext.spec_value()) == Arg::ExecContext.spec_ty());
}

impl ExecIrBuilder {
    fn has_tag(&mut self, ptr: SSAValue, tag_bits: u8) -> (r: SSAValue)
        requires
            old(self).wf(),
            old(self)@.has(ptr),
            old(self)@.ty(ptr) is HostPtr,
        ensures
            emitted1(old(self)@, final(self)@, StmtKind::HasTag { ptr, tag_bits }, r),
    {
        self.emit_1ret_stmt(StmtKind::HasTag { ptr, tag_bits })
    }

    fn untag_ptr(&mut self, ptr: SSAValue, tag_bits: u8) -> (r: SSAValue)
        requires
            old(self).wf(),
            old(self)@.has(ptr),
            old(self)@.ty(ptr) is HostPtr,
        ensures
            emitted1(old(self)@, final(self)@, StmtKind::Untag { ptr, tag_bits }, r),
    {
        self.emit_1ret_stmt(StmtKind::Untag { ptr, tag_bits })
    }

    /// Loads through the host.
    fn host_load(&mut self, vaddr: SSAValue, width: IntWidth, exclusive: bool) -> (r: SSAValue)
        requires
            old(self).wf(),
            old(self)@.is_int(vaddr, IntWidth::W64),
            !old(self)@.block(old(self)@.current).terminated,
        ensures
            moved_on(old(self)@, final(self)@),
            (final(self)@, r) == old(self)@.host_load(vaddr, width, exclusive),
            final(self)@.is_int(r, width),
            final(self)@.current.index >= old(self)@.blocks.len(),
    {
        proof {
            lemma_wf(self@);
        }
        let (host_cb, signature) = load_callback(width, exclusive);
        let ptr = self.get_scratch_space_ptr();
        proof {
            lemma_host_args(self@, signature, vaddr, ptr);
        }
        let args = host_arg_list(vaddr, ptr);
        let ghost v1 = self@;
        let status = match self.call_host(host_cb, signature, args) {
            Some(status) => status,
            None => vaddr,
        };
        assert(self@.is_int(status, IntWidth::W8));
        let fail = self.make_halt_block(HaltReason::memory_trap(width.bytes()));
        let _ = self.assert_or_jmp_to(status, false, fail);
        self.emit_1ret_stmt(
            StmtKind::LoadHost { ty: LoadType::Int(width), base_ptr: ptr, offset: 0, can_move: false },
        )
    }

    /// Stores through the host.
    fn host_store(&mut self, vaddr: SSAValue, value: SSAValue)
        requires
            old(self).wf(),
            old(self)@.is_int(vaddr, IntWidth::W64),
            old(self)@.has(value),
            old(self)@.ty(value) is Int,
            !old(self)@.block(old(self)@.current).terminated,
        ensures
            moved_on(old(self)@, final(self)@),
            final(self)@ == old(self)@.host_store(vaddr, value),
            final(self)@.current.index >= old(self)@.blocks.len(),
    {
        proof {
            lemma_wf(self@);
        }
        let width: IntWidth = self.width_of(value);
        let (host_cb, signature) = store_callback(width, false);
        proof {
            lemma_host_args(self@, signature, vaddr, value);
        }
        let args = host_arg_list(vaddr, value);
        let status = match self.call_host(host_cb, signature, args) {
            Some(status) => status,
            None => vaddr,
        };
        assert(self@.is_int(status, IntWidth::W8));
        let fail = self.make_halt_block(HaltReason::memory_trap(width.bytes()));
        let _ = self.assert_or_jmp_to(status, false, fail);
    }

    fn emit_host_mem_fallback(&mut self, vaddr: SSAValue, access: VmAccessKind) -> (r:
        FallbackAccess)
        requires
            old(self).wf(),
            old(self)@.is_int(vaddr, IntWidth::W64),
            access.ok(old(self)@),
        ensures
            same_place(old(self)@, final(self)@),
            (final(self)@, r) == old(self)@.fallback(vaddr, access),
            r.block.index == old(self)@.blocks.len(),
            r.block.index < r.ok_block.index < final(self)@.blocks.len(),
            !final(self)@.block(r.ok_block).terminated,
            access matches VmAccessKind::Load { width } ==> r.value is Some && final(self)@.is_int(
                r.value->0,
                width,
            ),
            access is Store ==> r.value is None,
    {
        proof {
            lemma_wf(self@);
        }
        let original = self.current_block();
        let block = self.create_block();
        self.switch_to(block);
        self.mark_current_block_cold();
        match access {
            VmAccessKind::Load { width } => {
                let value = self.host_load(vaddr, width, false);
                let ok_block = self.current_block();
                self.switch_to(original);
                FallbackAccess { block, ok_block, value: Some(value) }
            },
            VmAccessKind::Store { value } => {
                self.host_store(vaddr, value);
                let ok_block = self.current_block();
                self.switch_to(original);
                FallbackAccess { block, ok_block, value: None }
            },
        }
    }

    /// Looks for the page of `vaddr` in the TLB.
    #[verifier::spinoff_prover]
    #[verifier::rlimit(60)]
    fn emit_tlb_probe(&mut self, vaddr: SSAValue, fallback: Block) -> (r: SSAValue)
        requires
            old(self).wf(),
            old(self)@.is_int(vaddr, IntWidth::W64),
            0 < fallback.index < old(self)@.blocks.len(),
            !old(self)@.block(old(self)@.current).terminated,
        ensures
            moved_on(old(self)@, final(self)@),
            (final(self)@, r) == old(self)@.tlb_probe(vaddr, fallback),
            final(self)@.has(r),
            final(self)@.ty(r) is HostPtr,
            final(self)@.current.index >= old(self)@.blocks.len(),
    {
        proof {
            lemma_wf(self@);
            assert(self@.ty(Arg::Tlb.spec_value()) == Arg::Tlb.spec_ty());
            assert(self@.ty(Arg::IoMMUIdentifier.spec_value()) == Arg::IoMMUIdentifier.spec_ty());
        }
        let page_number = self.sshr_exact_imm(vaddr, PAGE_NUMBER_SHIFT);
        let tlb_index = self.bitand_imm(page_number, IConst::u64(TLB_MASK));
        let entry = self.emit_1ret_stmt(
            StmtKind::PtrAdd {
                base_ptr: Arg::Tlb.as_ssa_value(),
                offset: tlb_index,
                elem_size: TLB_ENTRY_SIZE,
            },
        );
        // the TLB always has all of its entries, so they can always be read
        let ident = self.emit_1ret_stmt(
            StmtKind::LoadHost {
                ty: LoadType::HostPtr(AliasRegion::ReadOnly),
                base_ptr: entry,
                offset: TLB_IDENT_OFFSET,
                can_move: true,
            },
        );
        let ident_matches = self.emit_1ret_stmt(
            StmtKind::PtrEq(ident, Arg::IoMMUIdentifier.as_ssa_value()),
        );
        let ghost v5 = self@;
        let _ = self.assert_or_jmp_to(ident_matches, true, fallback);
        let found = self.emit_1ret_stmt(
            StmtKind::LoadHost {
                ty: LoadType::Int(IntWidth::W64),
                base_ptr: entry,
                offset: TLB_PAGE_NUMBER_OFFSET,
                can_move: true,
            },
        );
        let number_matches = self.icmp(IntCmp::Equal, page_number, found);
        let _ = self.assert_or_jmp_to(number_matches, true, fallback);
        entry
    }

    /// Goes to `fallback` if `vaddr` is not aligned.
    fn emit_alignment_check(&mut self, vaddr: SSAValue, width: IntWidth, fallback: Block)
        requires
            old(self).wf(),
            old(self)@.is_int(vaddr, IntWidth::W64),
            0 < fallback.index < old(self)@.blocks.len(),
            !old(self)@.block(old(self)@.current).terminated,
        ensures
            moved_on(old(self)@, final(self)@),
            final(self)@ == old(self)@.check_alignment(vaddr, width, fallback),
            final(self)@.current == old(self)@.current || final(self)@.current.index
                >= old(self)@.blocks.len(),
    {
        proof {
            lemma_wf(self@);
        }
        // a byte is always aligned; a naturally aligned access always fits
        // in its page
        match width {
            IntWidth::W8 => {},
            _ => {
                let align_mask: u64 = width.bytes_u64() - 1;
                let alignment_bits = self.bitand_imm(vaddr, IConst::u64(align_mask));
                let is_aligned = self.icmp_imm(IntCmp::Equal, alignment_bits, IConst::u64(0));
                let _ = self.assert_or_jmp_to(is_aligned, true, fallback);
            },
        }
    }

    /// Adds a cold block that records a fault and returns a memory trap.
    #[verifier::spinoff_prover]
    #[verifier::rlimit(60)]
    fn make_trap_block(&mut self, vaddr: SSAValue, op: MemOp, width: IntWidth) -> (r: Block)
        requires
            old(self).wf(),
            old(self)@.is_int(vaddr, IntWidth::W64),
        ensures
            same_place(old(self)@, final(self)@),
            (final(self)@, r) == old(self)@.trap_block(vaddr, op, width),
            r.index == old(self)@.blocks.len(),
            r.index < final(self)@.blocks.len(),
    {
        proof {
            lemma_wf(self@);
            assert(self@.ty(Arg::ExecContext.spec_value()) == Arg::ExecContext.spec_ty());
        }
        let original = self.current_block();
        let fail = self.create_block();
        self.switch_to(fail);
        // it is always safe to access the execution context
        let base_ptr = Arg::ExecContext.as_ssa_value();
        self.emit_void_stmt(
            StmtKind::StoreHost { base_ptr, offset: FAULT_VADDR_OFFSET, value: vaddr, can_move: true },
        );
        let code = self.iconst(IConst::u8(mem_op_code(op)));
        self.emit_void_stmt(
            StmtKind::StoreHost { base_ptr, offset: FAULT_MEM_OP_OFFSET, value: code, can_move: true },
        );
        let pending = self.iconst(IConst::u8(1));
        self.emit_void_stmt(
            StmtKind::StoreHost {
                base_ptr,
                offset: FAULT_PENDING_OFFSET,
                value: pending,
                can_move: true,
            },
        );
        let reason = self.iconst(IConst::u32(HaltReason::memory_trap(width.bytes()).code));
        self.terminate(Terminator::ReturnCode(reason));
        self.mark_current_block_cold();
        self.switch_to(original);
        fail
    }

    /// Notes a store in the page's flags if the page asks for it.
    #[verifier::spinoff_prover]
    #[verifier::rlimit(60)]
    fn emit_note_dirty(&mut self, tagged: SSAValue, entry: SSAValue) -> (r: Block)
        requires
            old(self).wf(),
            old(self)@.has(tagged),
            old(self)@.ty(tagged) is HostPtr,
            old(self)@.has(entry),
            old(self)@.ty(entry) is HostPtr,
            !old(self)@.block(old(self)@.current).terminated,
        ensures
            moved_on(old(self)@, final(self)@),
            (final(self)@, r) == old(self)@.note_dirty(tagged, entry),
            final(self)@.current == r,
            r.index >= old(self)@.blocks.len(),
    {
        proof {
            lemma_wf(self@);
        }
        let page_must_dirty = self.has_tag(tagged, TAG_MUST_DIRTY);
        let dirty = self.create_block();
        let continuation = self.assert_or_jmp_to(page_must_dirty, false, dirty);
        self.switch_to(dirty);
        let flags = self.emit_1ret_stmt(
            StmtKind::LoadHost {
                ty: LoadType::HostPtr(AliasRegion::PageFlags),
                base_ptr: entry,
                offset: TLB_PAGE_FLAGS_OFFSET,
                can_move: true,
            },
        );
        self.emit_void_stmt(StmtKind::SetPageDirtyFlag(flags));
        self.terminate(Terminator::Br(Jump::to(continuation)));
        self.switch_to(continuation);
        continuation
    }

    /// Joins the inlined load and the fallback.
    #[verifier::spinoff_prover]
    #[verifier::rlimit(60)]
    fn emit_merge_loads(
        &mut self,
        width: IntWidth,
        inlined: SSAValue,
        ok_block: Block,
        fallback: SSAValue,
    ) -> (r: SSAValue)
        requires
            old(self).wf(),
            old(self)@.has(inlined),
            old(self)@.has(fallback),
            !old(self)@.block(old(self)@.current).terminated,
            old(self)@.has_block(ok_block),
            ok_block != old(self)@.current,
            !old(self)@.block(ok_block).terminated,
        ensures
            final(self).wf(),
            old(self)@.grows_to(final(self)@),
            (final(self)@, r) == old(self)@.merge_loads(width, inlined, ok_block, fallback),
            final(self)@.is_int(r, width),
            !final(self)@.block(final(self)@.current).terminated,
    {
        proof {
            lemma_wf(self@);
        }
        let normal = self.current_block();
        let merge = self.create_block();
        self.switch_to(merge);
        let param = self.add_block_parameter(Type::Int(width));
        let from_inlined = Jump::with(merge, vec![inlined].as_slice());
        assert(from_inlined@.parameters =~= seq![inlined.index]);
        self.terminate_block(normal, Terminator::Br(from_inlined));
        let from_fallback = Jump::with(merge, vec![fallback].as_slice());
        assert(from_fallback@.parameters =~= seq![fallback.index]);
        self.terminate_block(ok_block, Terminator::Br(from_fallback));
        param
    }

    #[verifier::spinoff_prover]
    #[verifier::rlimit(100)]
    fn vm_access(&mut self, vaddr: SSAValue, access: VmAccessKind, acq_rel: bool) -> (r: Option<
        SSAValue,
    >)
        requires
            old(self).wf(),
            old(self)@.is_int(vaddr, IntWidth::W64),
            access.ok(old(self)@),
            !old(self)@.block(old(self)@.current).terminated,
        ensures
            final(self).wf(),
            old(self)@.grows_to(final(self)@),
            (final(self)@, r) == old(self)@.vm_access(vaddr, access, acq_rel),
            access matches VmAccessKind::Load { width } ==> r is Some && final(self)@.is_int(
                r->0,
                width,
            ),
            access is Store ==> r is None,
            !final(self)@.block(final(self)@.current).terminated,
    {
        let ghost v0 = self@;
        proof {
            lemma_wf(self@);
        }
        let width: IntWidth = access.width(self);
        let fallback = self.emit_host_mem_fallback(vaddr, access);
        let ok_block = fallback.ok_block;
        let ghost v1 = self@;
        let entry = self.emit_tlb_probe(vaddr, fallback.block);
        assert(!self@.block(ok_block).terminated);
        let tagged = self.emit_1ret_stmt(
            StmtKind::LoadHost {
                ty: LoadType::HostPtr(AliasRegion::VirtualMemory),
                base_ptr: entry,
                offset: TLB_TAGGED_PTR_OFFSET,
                can_move: true,
            },
        );
        assert(self@.ty(tagged) is HostPtr);
        let page_offset = self.bitand_imm(vaddr, IConst::u64(PAGE_OFFSET_MASK));
        assert(self@.is_int(page_offset, IntWidth::W64));
        self.emit_alignment_check(vaddr, width, fallback.block);
        assert(!self@.block(ok_block).terminated);
        let allowed = self.has_tag(tagged, access.required_perms());
        assert(self@.is_bool(allowed));
        let trap = self.make_trap_block(vaddr, access.mem_op(), width);
        let _ = self.assert_or_jmp_to(allowed, true, trap);
        assert(!self@.block(ok_block).terminated);
        let page = self.untag_ptr(tagged, TAG_ALL);
        match access {
            VmAccessKind::Load { .. } => {
                let inlined = self.emit_1ret_stmt(
                    StmtKind::VMLoadRaw {
                        aligned_page_ptr: page,
                        page_offset,
                        width,
                        seq_cst: acq_rel,
                    },
                );
                let from_host = match fallback.value {
                    Some(value) => value,
                    None => inlined,
                };
                let param = self.emit_merge_loads(width, inlined, ok_block, from_host);
                Some(param)
            },
            VmAccessKind::Store { value } => {
                self.emit_void_stmt(
                    StmtKind::VMStoreRaw {
                        aligned_page_ptr: page,
                        page_offset,
                        value,
                        seq_cst: acq_rel,
                    },
                );
                let continuation = self.emit_note_dirty(tagged, entry);
                // the host notes stores by itself, so the fallback only goes on
                self.terminate_block(ok_block, Terminator::Br(Jump::to(continuation)));
                None
            },
        }
    }

    /// Loads `width` bytes of guest memory at `vaddr`.
    ///
    /// # Replayability
    ///
    /// This operation may trap. On memory fault, the compiled function exits
    /// with a memory fault reporting `vaddr`; a dispatcher decides whether to
    /// resolve it or deliver it to the guest. If resolved, the faulting
    /// instruction is re-executed from scratch starting at the current pc:
    /// there is no resumption mid-instruction.
    ///
    /// This means every `vm_load`/`vm_store` for a guest instruction must
    /// happen before any guest-visible state derived from them is committed.
    pub fn vm_load(&mut self, vaddr: SSAValue, width: IntWidth) -> (r: SSAValue)
        requires
            old(self).wf(),
            old(self)@.is_int(vaddr, IntWidth::W64),
            !old(self)@.block(old(self)@.current).terminated,
        ensures
            final(self).wf(),
            old(self)@.grows_to(final(self)@),
            (final(self)@, Some(r)) == old(self)@.vm_access(
                vaddr,
                VmAccessKind::Load { width },
                false,
            ),
            final(self)@.is_int(r, width),
            !final(self)@.block(final(self)@.current).terminated,
    {
        match self.vm_access(vaddr, VmAccessKind::Load { width }, false) {
            Some(value) => value,
            None => vaddr,
        }
    }

    /// Stores `value` to guest memory at `vaddr`.
    ///
    /// # Replayability
    ///
    /// Same contract as [`Self::vm_load`].
    pub fn vm_store(&mut self, vaddr: SSAValue, value: SSAValue)
        requires
            old(self).wf(),
            old(self)@.is_int(vaddr, IntWidth::W64),
            old(self)@.has(value),
            old(self)@.ty(value) is Int,
            !old(self)@.block(old(self)@.current).terminated,
        ensures
            final(self).wf(),
            old(self)@.grows_to(final(self)@),
            (final(self)@, None::<SSAValue>) == old(self)@.vm_access(
                vaddr,
                VmAccessKind::Store { value },
                false,
            ),
            !final(self)@.block(final(self)@.current).terminated,
    {
        let _ = self.vm_access(vaddr, VmAccessKind::Store { value }, false);
    }

    /// Loads `width` bytes of guest memory at `vaddr`, establishing an
    /// exclusive reservation on the accessed location for a matching
    /// [`Self::strex`].
    ///
    /// Implements the guest `LDXR`/`LDREX` family. Every call goes to the
    /// host, since arming the exclusive monitor is itself a host-side side
    /// effect.
    ///
    /// # Replayability
    ///
    /// Same contract as [`Self::vm_load`].
    pub fn ldrex(&mut self, vaddr: SSAValue, width: IntWidth) -> (r: SSAValue)
        requires
            old(self).wf(),
            old(self)@.is_int(vaddr, IntWidth::W64),
            !old(self)@.block(old(self)@.current).terminated,
        ensures
            moved_on(old(self)@, final(self)@),
            (final(self)@, r) == old(self)@.host_load(vaddr, width, true),
            final(self)@.is_int(r, width),
    {
        self.host_load(vaddr, width, true)
    }

    /// Conditionally stores `value` to guest memory at `vaddr` if the
    /// exclusive monitor armed by a matching [`Self::ldrex`] is still held,
    /// clearing the monitor either way.
    ///
    /// Implements the guest `STXR`/`STREX` family. Returns the raw
    /// exclusive-store status as an 8-bit value: `0` if the store succeeded,
    /// `1` if it failed because the monitor was not held. A memory fault
    /// instead halts the compiled function with a memory trap.
    ///
    /// # Replayability
    ///
    /// Same contract as [`Self::vm_store`].
    pub fn strex(&mut self, vaddr: SSAValue, value: SSAValue) -> (r: SSAValue)
        requires
            old(self).wf(),
            old(self)@.is_int(vaddr, IntWidth::W64),
            old(self)@.has(value),
            old(self)@.ty(value) is Int,
            !old(self)@.block(old(self)@.current).terminated,
        ensures
            moved_on(old(self)@, final(self)@),
            (final(self)@, r) == old(self)@.strex(vaddr, value),
            final(self)@.is_int(r, IntWidth::W8),
    {
        proof {
            lemma_wf(self@);
        }
        let width: IntWidth = self.width_of(value);
        let (host_cb, signature) = store_callback(width, true);
        proof {
            lemma_host_args(self@, signature, vaddr, value);
        }
        let args = host_arg_list(vaddr, value);
        let status = match self.call_host(host_cb, signature, args) {
            Some(status) => status,
            None => vaddr,
        };
        assert(self@.is_int(status, IntWidth::W8));
        let failed = self.icmp_imm(IntCmp::Equal, status, IConst::u8(StrexStatus::Fault.code()));
        assert(self@.is_bool(failed));
        let fail = self.make_halt_block(HaltReason::memory_trap(width.bytes()));
        let _ = self.assert_or_jmp_to(failed, false, fail);
        status
    }

    /// Clears the exclusive monitor for the current CPU without touching
    /// guest memory.
    ///
    /// Implements the guest `CLREX` instruction: any reservation armed by a
    /// prior [`Self::ldrex`] is dropped, so a subsequent [`Self::strex`]
    /// against that address is guaranteed to fail. This call cannot trap.
    pub fn clrex(&mut self)
        requires
            old(self).wf(),
        ensures
            same_place(old(self)@, final(self)@),
            final(self)@ == old(self)@.call_host(
                HostCallback::ClearExclusive,
                CallbackSignature::ClearExclusive,
                seq![Arg::ExecContext.spec_value().index],
            ).0,
    {
        let mut args = InlineList::new();
        args.push(Arg::ExecContext.as_ssa_value().index);
        proof {
            lemma_wf(self@);
            assert(self@.ty(Arg::ExecContext.spec_value()) == Arg::ExecContext.spec_ty());
            assert(args@ =~= seq![Arg::ExecContext.spec_value().index]);
        }
        let _ = self.call_host(
            HostCallback::ClearExclusive,
            CallbackSignature::ClearExclusive,
            args,
        );
    }
}

} // verus!
