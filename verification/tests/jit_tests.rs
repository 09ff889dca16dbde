use emu_core::cpu_fabric::CpuFabric;
use emu_core::exec_context::{ExecContext, MemOp};
use emu_core::ffi_support;
use emu_core::fault::MemoryFaultReason;
use emu_core::function_lowering::lower_function;
use emu_core::icache::ICache;
use emu_core::io_mmu::IoMMU;
use emu_core::ir::builder::{ExecIrBuilder, IrBuilderConfig};
use emu_core::ir::layout::{
    mem_op_code, tagged_page_ptr, FAULT_MEM_OP_OFFSET, FAULT_PENDING_OFFSET, FAULT_VADDR_OFFSET,
    PC_OFFSET, PSTATE_C, PSTATE_N, PSTATE_NZCV_MASK, PSTATE_OFFSET, PSTATE_V, PSTATE_Z, SP_OFFSET,
    TLB_ENTRY_SIZE,
};
use emu_core::ir::types::{
    Arg, Block, HostCallback, IConst, IntCmp, IntWidth, Jump, SSAValue, StmtKind, Terminator, Type,
};
use emu_core::ir::ExecIr;
use emu_core::lookup_cache::Tlb;
use emu_core::lowering::{
    ClifBinary, ClifFunction, ClifOp, ClifRmw, ClifTy, ClifUnary, LoweringError,
};
use emu_core::memory::{MemFlags, MemProt, PagePointer, PAGE_SIZE_U64};
use std::collections::HashMap;

struct ICacheSink;

impl ICache for ICacheSink {
    fn invalidate(&mut self, _: PagePointer) {}
}

const EXEC_STATE_ADDR: u64 = 0x1_0000;
const EXEC_CONTEXT_ADDR: u64 = 0x2_0000;
const TLB_ADDR: u64 = 0x3_0000;
const IDENT_ADDR: u64 = 0x5_0000;
const HALT_REASON_ADDR: u64 = 0x6_0000;
const IO_MMU_ADDR: u64 = 0x7_0000;
const STACK_ADDR: u64 = 0x8_0000;
const PAGE_FLAGS_ADDR: u64 = 0x9_0000;
const HOST_PAGES_ADDR: u64 = 0x1000_0000;

/// A guest CPU's state as the tests see it.
struct ExecState {
    x_registers: [u64; 31],
    sp: u64,
    pc: u64,
    pstate: u32,
}

impl ExecState {
    fn initial() -> Self {
        ExecState { x_registers: [0; 31], sp: 0, pc: 0, pstate: 0 }
    }
}

/// Runs lowered functions on a flat memory.
struct Machine {
    memory: HashMap<u64, u8>,
    mmu: IoMMU,
    fabric: CpuFabric<ICacheSink>,
    tlb: Tlb,
    context: ExecContext,
    steps: usize,
}

fn bits(ty: ClifTy) -> u32 {
    match ty {
        ClifTy::I8 => 8,
        ClifTy::I16 => 16,
        ClifTy::I32 => 32,
        ClifTy::I64 => 64,
    }
}

fn cut(ty: ClifTy, value: u64) -> u64 {
    match ty {
        ClifTy::I64 => value,
        _ => value & ((1u64 << bits(ty)) - 1),
    }
}

fn signed(ty: ClifTy, value: u64) -> i64 {
    let shift = 64 - bits(ty);
    ((value << shift) as i64) >> shift
}

fn compare(predicate: IntCmp, ty: ClifTy, a: u64, b: u64) -> bool {
    let (sa, sb) = (signed(ty, a), signed(ty, b));
    match predicate {
        IntCmp::Equal => a == b,
        IntCmp::NotEqual => a != b,
        IntCmp::SignedLessThan => sa < sb,
        IntCmp::SignedLessThanOrEqual => sa <= sb,
        IntCmp::SignedGreaterThan => sa > sb,
        IntCmp::SignedGreaterThanOrEqual => sa >= sb,
        IntCmp::UnsignedLessThan => a < b,
        IntCmp::UnsignedLessThanOrEqual => a <= b,
        IntCmp::UnsignedGreaterThan => a > b,
        IntCmp::UnsignedGreaterThanOrEqual => a >= b,
    }
}

fn binary(op: ClifBinary, ty: ClifTy, a: u64, b: u64) -> u64 {
    let amount = (b % u64::from(bits(ty))) as u32;
    let result = match op {
        ClifBinary::Iadd => a.wrapping_add(b),
        ClifBinary::Isub => a.wrapping_sub(b),
        ClifBinary::Imul => a.wrapping_mul(b),
        ClifBinary::Udiv => a / b,
        ClifBinary::Sdiv => (signed(ty, a) / signed(ty, b)) as u64,
        ClifBinary::Band => a & b,
        ClifBinary::Bor => a | b,
        ClifBinary::Bxor => a ^ b,
        ClifBinary::Sshr => (signed(ty, a) >> amount) as u64,
        ClifBinary::Ushr => a >> amount,
        ClifBinary::Ishl => a << amount,
    };
    cut(ty, result)
}

impl Machine {
    fn new() -> Self {
        let mut fabric = CpuFabric::new(ICacheSink);
        let mmu = IoMMU::new(&mut fabric);
        Machine {
            memory: HashMap::new(),
            mmu,
            fabric,
            tlb: Tlb::new(),
            context: ExecContext::initial(),
            steps: 0,
        }
    }

    fn load(&self, addr: u64, bytes: u64) -> u64 {
        let mut value = 0;
        for i in 0..bytes {
            let at = addr + i;
            let byte = if at >= HOST_PAGES_ADDR {
                let offset = at - HOST_PAGES_ADDR;
                let page = (offset / PAGE_SIZE_U64) as usize;
                self.fabric.store.host[page].bytes[(offset % PAGE_SIZE_U64) as usize]
            } else {
                self.memory.get(&at).copied().unwrap_or(0)
            };
            value |= u64::from(byte) << (8 * i);
        }
        value
    }

    fn store(&mut self, addr: u64, bytes: u64, value: u64) {
        for i in 0..bytes {
            let at = addr + i;
            let byte = (value >> (8 * i)) as u8;
            if at >= HOST_PAGES_ADDR {
                let offset = at - HOST_PAGES_ADDR;
                let page = (offset / PAGE_SIZE_U64) as usize;
                self.fabric.store.host[page].bytes[(offset % PAGE_SIZE_U64) as usize] = byte;
            } else {
                self.memory.insert(at, byte);
            }
        }
    }

    /// Puts the page of `vaddr` into the TLB that compiled code reads.
    fn fill_tlb(&mut self, vaddr: u64, tags: u64) {
        let number = emu_core::memory::PageNumber { number: vaddr / PAGE_SIZE_U64 };
        let page = self.mmu.get_page(&self.fabric, &mut self.tlb, number).unwrap();
        let entry = TLB_ADDR + (number.number & 255) * TLB_ENTRY_SIZE as u64;
        self.store(entry, 8, IDENT_ADDR);
        self.store(entry + 8, 8, number.number);
        let ptr = HOST_PAGES_ADDR + page.ptr.page.index as u64 * PAGE_SIZE_U64;
        self.store(entry + 16, 8, ptr | tags);
        self.store(entry + 24, 8, PAGE_FLAGS_ADDR);
    }

    fn flags_of(&mut self, vaddr: u64) -> MemFlags {
        let number = emu_core::memory::PageNumber { number: vaddr / PAGE_SIZE_U64 };
        self.mmu.get_page(&self.fabric, &mut self.tlb, number).unwrap().ptr.flags
    }

    fn call(&mut self, func: HostCallback, args: &[u64]) -> u64 {
        let (mmu, fabric, tlb, context) =
            (&self.mmu, &mut self.fabric, &mut self.tlb, &mut self.context);
        match func {
            HostCallback::ClearExclusive => {
                ffi_support::clrex(context);
                0
            }
            HostCallback::Load(width) | HostCallback::LoadExclusive(width) => {
                let exclusive = matches!(func, HostCallback::LoadExclusive(_));
                let (vaddr, out) = (args[3], args[4]);
                let (mut b, mut h, mut w, mut d) = (0u8, 0u16, 0u32, 0u64);
                let status = match (width, exclusive) {
                    (IntWidth::W8, false) => {
                        ffi_support::load_byte(mmu, fabric, tlb, context, vaddr, &mut b)
                    }
                    (IntWidth::W16, false) => {
                        ffi_support::load16_le(mmu, fabric, tlb, context, vaddr, &mut h)
                    }
                    (IntWidth::W32, false) => {
                        ffi_support::load32_le(mmu, fabric, tlb, context, vaddr, &mut w)
                    }
                    (IntWidth::W64, false) => {
                        ffi_support::load64_le(mmu, fabric, tlb, context, vaddr, &mut d)
                    }
                    (IntWidth::W8, true) => {
                        ffi_support::ldrexb(mmu, fabric, tlb, context, vaddr, &mut b)
                    }
                    (IntWidth::W16, true) => {
                        ffi_support::ldrexh(mmu, fabric, tlb, context, vaddr, &mut h)
                    }
                    (IntWidth::W32, true) => {
                        ffi_support::ldrex(mmu, fabric, tlb, context, vaddr, &mut w)
                    }
                    (IntWidth::W64, true) => {
                        ffi_support::ldrexd(mmu, fabric, tlb, context, vaddr, &mut d)
                    }
                };
                let value = u64::from(b) | u64::from(h) | u64::from(w) | d;
                self.store(out, width.bytes_u64(), value);
                u64::from(status.code())
            }
            HostCallback::Store(width) => {
                let (vaddr, value) = (args[3], args[4]);
                let status = match width {
                    IntWidth::W8 => {
                        ffi_support::store_byte(mmu, fabric, tlb, context, vaddr, value as u8)
                    }
                    IntWidth::W16 => {
                        ffi_support::store16_le(mmu, fabric, tlb, context, vaddr, value as u16)
                    }
                    IntWidth::W32 => {
                        ffi_support::store32_le(mmu, fabric, tlb, context, vaddr, value as u32)
                    }
                    IntWidth::W64 => {
                        ffi_support::store64_le(mmu, fabric, tlb, context, vaddr, value)
                    }
                };
                u64::from(status.code())
            }
            HostCallback::StoreExclusive(width) => {
                let (vaddr, value) = (args[3], args[4]);
                let status = match width {
                    IntWidth::W8 => {
                        ffi_support::strexb(mmu, fabric, tlb, context, vaddr, value as u8)
                    }
                    IntWidth::W16 => {
                        ffi_support::strexh(mmu, fabric, tlb, context, vaddr, value as u16)
                    }
                    IntWidth::W32 => {
                        ffi_support::strex(mmu, fabric, tlb, context, vaddr, value as u32)
                    }
                    IntWidth::W64 => ffi_support::strexd(mmu, fabric, tlb, context, vaddr, value),
                };
                u64::from(status.code())
            }
        }
    }

    /// Runs a function, and gives the code that it returns.
    fn run(&mut self, func: &ClifFunction) -> u32 {
        let mut values: Vec<u64> = vec![0; func.types.len()];
        let mut callees: HashMap<u64, HostCallback> = HashMap::new();
        let entry: [u64; 6] = [
            IO_MMU_ADDR,
            TLB_ADDR,
            EXEC_CONTEXT_ADDR,
            EXEC_STATE_ADDR,
            IDENT_ADDR,
            HALT_REASON_ADDR,
        ];
        let mut block = 0usize;
        for (param, value) in func.blocks[0].params.iter().zip(entry) {
            values[*param as usize] = value;
        }
        'blocks: loop {
            self.steps += 1;
            assert!(self.steps < 100_000, "the function does not end");
            let insts = &func.blocks[block].insts;
            for inst in insts {
                let result = inst.result as usize;
                let ty = |value: u64| func.types[value as usize];
                let val = |value: u64| values[value as usize];
                let items = |list: emu_core::lowering::ClifList| -> Vec<u64> {
                    let list = &func.lists[list.index as usize];
                    (0..list.len()).map(|i| list.get(i)).collect()
                };
                match inst.op {
                    ClifOp::Iconst { ty, bits } => values[result] = cut(ty, bits),
                    ClifOp::FuncAddr { func } => {
                        callees.insert(inst.result, func);
                    }
                    ClifOp::Binary { op, lhs, rhs } => {
                        values[result] = binary(op, ty(lhs), val(lhs), val(rhs))
                    }
                    ClifOp::BinaryImm { op, lhs, imm } => {
                        values[result] = binary(op, ty(lhs), val(lhs), cut(ty(lhs), imm))
                    }
                    ClifOp::Unary { op, value } => {
                        let ty = ty(value);
                        values[result] = match op {
                            ClifUnary::Ineg => cut(ty, val(value).wrapping_neg()),
                            ClifUnary::Bnot => cut(ty, !val(value)),
                        }
                    }
                    ClifOp::Compare { predicate, lhs, rhs } => {
                        values[result] = compare(predicate, ty(lhs), val(lhs), val(rhs)) as u64
                    }
                    ClifOp::CompareImm { predicate, lhs, imm } => {
                        let imm = cut(ty(lhs), imm);
                        values[result] = compare(predicate, ty(lhs), val(lhs), imm) as u64
                    }
                    ClifOp::Select { cond, if_true, if_false } => {
                        values[result] = if val(cond) != 0 { val(if_true) } else { val(if_false) }
                    }
                    ClifOp::Overflowing { op, lhs, rhs } => {
                        let ty = ty(lhs);
                        let (a, b) = (signed(ty, val(lhs)) as i128, signed(ty, val(rhs)) as i128);
                        let exact = match op {
                            emu_core::ir::types::OverflowingBinOp::Add => a + b,
                            emu_core::ir::types::OverflowingBinOp::Sub => a - b,
                        };
                        let value = cut(ty, exact as u64);
                        values[result] = value;
                        values[result + 1] = (i128::from(signed(ty, value)) != exact) as u64;
                    }
                    ClifOp::Load { ty, base, offset, .. } => {
                        let addr = val(base) + u64::from(offset);
                        values[result] = self.load(addr, u64::from(bits(ty) / 8))
                    }
                    ClifOp::Store { value, base, offset, .. } => {
                        let addr = val(base) + u64::from(offset);
                        self.store(addr, u64::from(bits(ty(value)) / 8), val(value))
                    }
                    ClifOp::StackAddr { slot } => values[result] = STACK_ADDR + slot * 64,
                    ClifOp::Uextend { value, .. } => values[result] = val(value),
                    ClifOp::Ireduce { ty, value } => values[result] = cut(ty, val(value)),
                    ClifOp::CallIndirect { callee, args, .. } => {
                        let args: Vec<u64> = items(args).into_iter().map(val).collect();
                        let status = self.call(callees[&callee], &args);
                        if result < values.len() {
                            values[result] = status;
                        }
                    }
                    ClifOp::AtomicLoad { ty, ptr, .. } => {
                        values[result] = self.load(val(ptr), u64::from(bits(ty) / 8))
                    }
                    ClifOp::AtomicStore { value, ptr, .. } => {
                        self.store(val(ptr), u64::from(bits(ty(value)) / 8), val(value))
                    }
                    ClifOp::AtomicRmw { ty, op, ptr, value, .. } => {
                        let bytes = u64::from(bits(ty) / 8);
                        let old = self.load(val(ptr), bytes);
                        let new = match op {
                            ClifRmw::Xchg => val(value),
                            ClifRmw::Or => old | val(value),
                        };
                        self.store(val(ptr), bytes, new);
                        values[result] = old;
                    }
                    ClifOp::Return { value } => return val(value) as u32,
                    ClifOp::Jump { target, args } => {
                        let args: Vec<u64> = items(args).into_iter().map(val).collect();
                        block = target as usize;
                        for (param, arg) in func.blocks[block].params.iter().zip(args) {
                            values[*param as usize] = arg;
                        }
                        continue 'blocks;
                    }
                    ClifOp::Brif { cond, non_zero, non_zero_args, zero, zero_args } => {
                        let (target, args) = if val(cond) != 0 {
                            (non_zero, non_zero_args)
                        } else {
                            (zero, zero_args)
                        };
                        let args: Vec<u64> = items(args).into_iter().map(val).collect();
                        block = target as usize;
                        for (param, arg) in func.blocks[block].params.iter().zip(args) {
                            values[*param as usize] = arg;
                        }
                        continue 'blocks;
                    }
                }
            }
            panic!("a block without an end");
        }
    }
}

fn compile(builder: ExecIrBuilder) -> ClifFunction {
    let ir = builder.build();
    match lower_function(&ir, ClifTy::I64) {
        Ok(func) => func,
        Err(error) => panic!("cannot be lowered: {error:?}"),
    }
}

fn call_on(machine: &mut Machine, func: &ClifFunction, state: &mut ExecState) -> u32 {
    for (i, x) in state.x_registers.iter().enumerate() {
        machine.store(EXEC_STATE_ADDR + 8 * i as u64, 8, *x);
    }
    machine.store(EXEC_STATE_ADDR + SP_OFFSET as u64, 8, state.sp);
    machine.store(EXEC_STATE_ADDR + PC_OFFSET as u64, 8, state.pc);
    machine.store(EXEC_STATE_ADDR + PSTATE_OFFSET as u64, 4, u64::from(state.pstate));
    let code = machine.run(func);
    for (i, x) in state.x_registers.iter_mut().enumerate() {
        *x = machine.load(EXEC_STATE_ADDR + 8 * i as u64, 8);
    }
    state.sp = machine.load(EXEC_STATE_ADDR + SP_OFFSET as u64, 8);
    state.pc = machine.load(EXEC_STATE_ADDR + PC_OFFSET as u64, 8);
    state.pstate = machine.load(EXEC_STATE_ADDR + PSTATE_OFFSET as u64, 4) as u32;
    code
}

fn call_compiled(func: &ClifFunction, state: &mut ExecState) -> u32 {
    call_on(&mut Machine::new(), func, state)
}

fn run_success(builder: ExecIrBuilder, state: &mut ExecState) {
    let func = compile(builder);
    assert_eq!(call_compiled(&func, state), 0);
}

fn u64_const(builder: &mut ExecIrBuilder, value: u64) -> SSAValue {
    builder.iconst(IConst::u64(value))
}

fn store_x_const<const REG_IDX: u8>(builder: &mut ExecIrBuilder, value: u64) {
    let value = u64_const(builder, value);
    builder.store_x_reg::<REG_IDX>(value);
}

fn branch_to_store_x1(
    cond: SSAValue,
    builder: &mut ExecIrBuilder,
    non_zero_value: u64,
    zero_value: u64,
) {
    let non_zero = builder.create_block();
    let zero = builder.create_block();

    builder.terminate(Terminator::BrZ(cond, Jump::to(zero), Jump::to(non_zero)));

    builder.switch_to(non_zero);
    store_x_const::<1>(builder, non_zero_value);

    builder.switch_to(zero);
    store_x_const::<1>(builder, zero_value);
}

fn store_bool_as_x_reg<const REG_IDX: u8>(builder: &mut ExecIrBuilder, cond: SSAValue) {
    let one = builder.iconst(IConst::u64(1));
    let zero = builder.iconst(IConst::u64(0));
    let value = builder.select(cond, one, zero);
    builder.store_x_reg::<REG_IDX>(value);
}

fn clear_pstate(builder: &mut ExecIrBuilder) {
    let zero = builder.iconst(IConst::u32(0));
    builder.store_pstate(zero);
}

fn store_pstate_equals_as_x_reg<const REG_IDX: u8>(builder: &mut ExecIrBuilder, expected: u32) {
    let pstate = builder.load_pstate();
    let ok = builder.icmp_imm(IntCmp::Equal, pstate, IConst::u32(expected));
    store_bool_as_x_reg::<REG_IDX>(builder, ok);
}

#[test]
fn brnz_takes_zero_path_for_zero_condition() {
    let mut builder = ExecIrBuilder::default();

    let cond = builder.load_x_reg::<0>(IntWidth::W64);
    branch_to_store_x1(cond, &mut builder, 0xaaaa, 0xbbbb);

    let mut state = ExecState::initial();
    state.x_registers[0] = 0;

    run_success(builder, &mut state);

    assert_eq!(state.x_registers[1], 0xbbbb);
}

#[test]
fn brnz_takes_non_zero_path_for_non_zero_condition() {
    let mut builder = ExecIrBuilder::default();

    let cond = builder.load_x_reg::<0>(IntWidth::W64);
    branch_to_store_x1(cond, &mut builder, 0xaaaa, 0xbbbb);

    let mut state = ExecState::initial();
    state.x_registers[0] = 42;

    run_success(builder, &mut state);

    assert_eq!(state.x_registers[1], 0xaaaa);
}

#[test]
fn brnz_accepts_narrow_integer_conditions() {
    let mut builder = ExecIrBuilder::default();

    let cond = builder.load_x_reg::<0>(IntWidth::W8);
    branch_to_store_x1(cond, &mut builder, 0x1111, 0x2222);

    let mut state = ExecState::initial();
    state.x_registers[0] = 0x0100;

    run_success(builder, &mut state);

    assert_eq!(
        state.x_registers[1], 0x2222,
        "low byte is zero, so W8 condition must be false",
    );

    let mut builder = ExecIrBuilder::default();

    let cond = builder.load_x_reg::<0>(IntWidth::W8);
    branch_to_store_x1(cond, &mut builder, 0x1111, 0x2222);

    let mut state = ExecState::initial();
    state.x_registers[0] = 0x0101;

    run_success(builder, &mut state);

    assert_eq!(
        state.x_registers[1], 0x1111,
        "low byte is non-zero, so W8 condition must be true",
    );
}

#[test]
fn unconditional_branch_executes_target_block() {
    let mut builder = ExecIrBuilder::default();

    let target = builder.create_block();
    builder.terminate(Terminator::Br(Jump::to(target)));

    builder.switch_to(target);
    store_x_const::<0>(&mut builder, 0xdecaf_bad);

    let mut state = ExecState::initial();
    run_success(builder, &mut state);

    assert_eq!(state.x_registers[0], 0xdecaf_bad);
}

#[test]
fn diamond_control_flow_rejoins_through_processor_state() {
    fn build_program() -> ExecIrBuilder {
        let mut builder = ExecIrBuilder::default();

        let non_zero = builder.create_block();
        let zero = builder.create_block();
        let join = builder.create_block();

        let cond = builder.load_x_reg::<0>(IntWidth::W64);
        builder.terminate(Terminator::BrZ(cond, Jump::to(zero), Jump::to(non_zero)));

        builder.switch_to(non_zero);
        store_x_const::<1>(&mut builder, 40);
        builder.terminate(Terminator::Br(Jump::to(join)));

        builder.switch_to(zero);
        store_x_const::<1>(&mut builder, 2);
        builder.terminate(Terminator::Br(Jump::to(join)));

        builder.switch_to(join);
        let x1 = builder.load_x_reg::<1>(IntWidth::W64);
        let one = u64_const(&mut builder, 1);
        let result = builder.iadd(x1, one);
        builder.store_x_reg::<2>(result);

        builder
    }

    let mut state = ExecState::initial();
    state.x_registers[0] = 0;
    run_success(build_program(), &mut state);
    assert_eq!(state.x_registers[1], 2);
    assert_eq!(state.x_registers[2], 3);

    let mut state = ExecState::initial();
    state.x_registers[0] = 1;
    run_success(build_program(), &mut state);
    assert_eq!(state.x_registers[1], 40);
    assert_eq!(state.x_registers[2], 41);
}

#[test]
fn manually_cold_block_still_executes_when_reached() {
    let mut builder = ExecIrBuilder::default();

    let hot = builder.create_block();
    let cold = builder.create_block();

    let cond = builder.load_x_reg::<0>(IntWidth::W64);
    builder.terminate(Terminator::BrZ(cond, Jump::to(hot), Jump::to(cold)));

    builder.switch_to(hot);
    store_x_const::<1>(&mut builder, 0x1234);

    builder.switch_to(cold);
    builder.mark_block_bold(cold);
    store_x_const::<1>(&mut builder, 0xc01d);

    let mut state = ExecState::initial();
    state.x_registers[0] = 1;

    run_success(builder, &mut state);

    assert_eq!(state.x_registers[1], 0xc01d);
}

#[test]
fn simple_counted_loop_executes_until_condition_is_zero() {
    let mut builder = ExecIrBuilder::default();

    let loop_block = builder.create_block();
    let exit_block = builder.create_block();

    builder.terminate(Terminator::Br(Jump::to(loop_block)));
    builder.switch_to(loop_block);

    builder.add_safepoint();

    let current = builder.load_x_reg::<0>(IntWidth::W64);
    let one = u64_const(&mut builder, 1);
    let next = builder.isub(current, one);
    builder.store_x_reg::<0>(next);
    builder.terminate(Terminator::BrZ(next, Jump::to(exit_block), Jump::to(loop_block)));

    builder.switch_to(exit_block);
    store_x_const::<1>(&mut builder, 0x0600_d100_u64);

    let mut state = ExecState::initial();
    state.x_registers[0] = 7;

    run_success(builder, &mut state);

    assert_eq!(state.x_registers[0], 0);
    assert_eq!(state.x_registers[1], 0x0600_d100_u64);
}

#[test]
fn unreachable_blocks_do_not_execute() {
    let mut builder = ExecIrBuilder::default();

    let unreachable = builder.create_block();

    builder.switch_to(unreachable);
    store_x_const::<0>(&mut builder, 0xbad);

    builder.switch_to(Block::ENTRYPOINT());
    store_x_const::<0>(&mut builder, 0x600d);

    let mut state = ExecState::initial();
    run_success(builder, &mut state);

    assert_eq!(state.x_registers[0], 0x600d);
}

#[test]
fn block_parameter_passed_by_unconditional_branch_is_visible_in_target() {
    let mut builder = ExecIrBuilder::default();

    let target = builder.create_block();
    let param = builder.add_block_parameter_at(target, Type::I64());

    let x0 = builder.load_x_reg::<0>(IntWidth::W64);
    let delta = u64_const(&mut builder, 0x20);
    let arg = builder.iadd(x0, delta);

    builder.terminate(Terminator::Br(Jump::with(target, &[arg])));

    builder.switch_to(target);
    let one = u64_const(&mut builder, 1);
    let result = builder.iadd(param, one);
    builder.store_x_reg::<1>(result);

    let mut state = ExecState::initial();
    state.x_registers[0] = 0x1000;

    run_success(builder, &mut state);

    assert_eq!(state.x_registers[1], 0x1021);
}

#[test]
fn block_parameter_arguments_act_like_phi_for_conditional_branch() {
    let mut builder = ExecIrBuilder::default();

    let join = builder.create_block();
    let value = builder.add_block_parameter_at(join, Type::I64());

    let cond = builder.load_x_reg::<0>(IntWidth::W64);
    let zero_value = u64_const(&mut builder, 2);
    let non_zero_value = u64_const(&mut builder, 40);

    builder.terminate(Terminator::BrZ(
        cond,
        Jump::with(join, &[zero_value]),
        Jump::with(join, &[non_zero_value]),
    ));

    builder.switch_to(join);
    let one = u64_const(&mut builder, 1);
    let result = builder.iadd(value, one);
    builder.store_x_reg::<1>(result);

    let compiled = compile(builder);

    let mut zero_state = ExecState::initial();
    zero_state.x_registers[0] = 0;
    assert_eq!(call_compiled(&compiled, &mut zero_state), 0);
    assert_eq!(zero_state.x_registers[1], 3);

    let mut non_zero_state = ExecState::initial();
    non_zero_state.x_registers[0] = 1;
    assert_eq!(call_compiled(&compiled, &mut non_zero_state), 0);
    assert_eq!(non_zero_state.x_registers[1], 41);
}

#[test]
fn brz_same_target_same_arguments_keeps_block_arguments() {
    let mut builder = ExecIrBuilder::default();

    let join = builder.create_block();
    let value = builder.add_block_parameter_at(join, Type::I64());

    let cond = builder.load_x_reg::<0>(IntWidth::W64);
    let arg = u64_const(&mut builder, 0xfeed_face);

    builder.terminate(Terminator::BrZ(cond, Jump::with(join, &[arg]), Jump::with(join, &[arg])));

    builder.switch_to(join);
    builder.store_x_reg::<1>(value);

    let compiled = compile(builder);

    let mut zero_state = ExecState::initial();
    zero_state.x_registers[0] = 0;
    assert_eq!(call_compiled(&compiled, &mut zero_state), 0);
    assert_eq!(zero_state.x_registers[1], 0xfeed_face);

    let mut non_zero_state = ExecState::initial();
    non_zero_state.x_registers[0] = 123;
    assert_eq!(call_compiled(&compiled, &mut non_zero_state), 0);
    assert_eq!(non_zero_state.x_registers[1], 0xfeed_face);
}

#[test]
fn loop_carried_block_parameters_update_on_backedge() {
    let mut builder = ExecIrBuilder::default();

    let loop_block = builder.create_block();
    let exit_block = builder.create_block();

    let remaining = builder.add_block_parameter_at(loop_block, Type::I64());
    let acc = builder.add_block_parameter_at(loop_block, Type::I64());
    let result = builder.add_block_parameter_at(exit_block, Type::I64());

    let initial_remaining = builder.load_x_reg::<0>(IntWidth::W64);
    let initial_acc = u64_const(&mut builder, 0);

    builder.terminate(Terminator::Br(Jump::with(
        loop_block,
        &[initial_remaining, initial_acc],
    )));

    builder.switch_to(loop_block);
    builder.add_safepoint();

    let one = u64_const(&mut builder, 1);
    let next_remaining = builder.isub(remaining, one);
    let next_acc = builder.iadd(acc, remaining);

    builder.terminate(Terminator::BrZ(
        next_remaining,
        Jump::with(exit_block, &[next_acc]),
        Jump::with(loop_block, &[next_remaining, next_acc]),
    ));

    builder.switch_to(exit_block);
    builder.store_x_reg::<1>(result);

    let mut state = ExecState::initial();
    state.x_registers[0] = 4;

    run_success(builder, &mut state);

    assert_eq!(state.x_registers[1], 10);
}

#[test]
fn set_nzcv_flags_preserves_non_flag_bits_and_replaces_old_flags() {
    let mut builder = ExecIrBuilder::default();

    let preserved = 0x00ff_00ff & !PSTATE_NZCV_MASK;
    let initial = preserved | PSTATE_NZCV_MASK;

    let initial = builder.iconst(IConst::u32(initial));
    builder.store_pstate(initial);

    let one = builder.iconst(IConst::u64(1));
    let zero = builder.iconst(IConst::u64(0));

    let true_bool = builder.icmp(IntCmp::NotEqual, one, zero);
    let false_bool = builder.icmp(IntCmp::Equal, one, zero);

    builder.set_nzcv_flags(true_bool, false_bool, true_bool, false_bool);

    let expected = preserved | PSTATE_N | PSTATE_C;
    store_pstate_equals_as_x_reg::<0>(&mut builder, expected);

    let mut state = ExecState::initial();
    run_success(builder, &mut state);

    assert_eq!(state.x_registers[0], 1);
}

#[test]
fn adds_and_subs_set_arm_nzcv_flags_for_wrap_carry_and_overflow() {
    let mut builder = ExecIrBuilder::default();

    clear_pstate(&mut builder);
    let lhs = builder.iconst(IConst::u64(u64::MAX));
    let rhs = builder.iconst(IConst::u64(1));
    let value = builder.iadds(lhs, rhs);
    builder.store_x_reg::<0>(value);
    store_pstate_equals_as_x_reg::<1>(&mut builder, PSTATE_Z | PSTATE_C);

    clear_pstate(&mut builder);
    let lhs = builder.iconst(IConst::i64(i64::MAX));
    let rhs = builder.iconst(IConst::i64(1));
    let value = builder.iadds(lhs, rhs);
    builder.store_x_reg::<2>(value);
    store_pstate_equals_as_x_reg::<3>(&mut builder, PSTATE_N | PSTATE_V);

    clear_pstate(&mut builder);
    let lhs = builder.iconst(IConst::u64(0));
    let rhs = builder.iconst(IConst::u64(1));
    let value = builder.isubs(lhs, rhs);
    builder.store_x_reg::<4>(value);
    store_pstate_equals_as_x_reg::<5>(&mut builder, PSTATE_N);

    clear_pstate(&mut builder);
    let lhs = builder.iconst(IConst::i64(i64::MIN));
    let rhs = builder.iconst(IConst::i64(1));
    let value = builder.isubs(lhs, rhs);
    builder.store_x_reg::<6>(value);
    store_pstate_equals_as_x_reg::<7>(&mut builder, PSTATE_C | PSTATE_V);

    let mut state = ExecState::initial();
    run_success(builder, &mut state);

    assert_eq!(state.x_registers[0], 0);
    assert_eq!(state.x_registers[1], 1);

    assert_eq!(state.x_registers[2], i64::MIN as u64);
    assert_eq!(state.x_registers[3], 1);

    assert_eq!(state.x_registers[4], u64::MAX);
    assert_eq!(state.x_registers[5], 1);

    assert_eq!(state.x_registers[6], i64::MAX as u64);
    assert_eq!(state.x_registers[7], 1);
}

#[test]
fn flag_setting_binops_produce_storable_values() {
    let mut builder = ExecIrBuilder::default();

    let lhs = builder.load_x_reg::<0>(IntWidth::W64);
    let rhs = builder.load_x_reg::<1>(IntWidth::W64);
    let sum = builder.iadds(lhs, rhs);
    builder.store_x_reg::<2>(sum);

    let lhs = builder.load_x_reg::<0>(IntWidth::W64);
    let rhs = builder.load_x_reg::<1>(IntWidth::W64);
    let diff = builder.isubs(lhs, rhs);
    builder.store_x_reg::<3>(diff);

    let mut state = ExecState::initial();
    state.x_registers[0] = 40;
    state.x_registers[1] = 58;

    run_success(builder, &mut state);

    assert_eq!(state.x_registers[2], 98);
    assert_eq!(state.x_registers[3], 40_u64.wrapping_sub(58));
}

#[test]
fn terminator_accept_bool_branch_condition() {
    let mut builder = ExecIrBuilder::default();

    let one = builder.iconst(IConst::u64(1));
    let cond = builder.icmp_imm(IntCmp::Equal, one, IConst::u64(1));
    let target = builder.create_block();

    builder.terminate(Terminator::BrZ(cond, Jump::to(target), Jump::to(target)));
}

fn quotient(
    width: IntWidth,
    a: IConst,
    b: IConst,
    divide: fn(&mut ExecIrBuilder, SSAValue, SSAValue) -> SSAValue,
    expected: IConst,
) -> bool {
    assert_eq!(a.width(), width);
    let mut builder = ExecIrBuilder::default();
    let lhs = builder.iconst(a);
    let rhs = builder.iconst(b);
    let result = divide(&mut builder, lhs, rhs);
    let same = builder.icmp_imm(IntCmp::Equal, result, expected);
    store_bool_as_x_reg::<0>(&mut builder, same);
    let mut state = ExecState::initial();
    run_success(builder, &mut state);
    state.x_registers[0] == 1
}

#[test]
fn unsigned_division_by_zero_gives_zero() {
    let udiv = ExecIrBuilder::udiv;
    assert!(quotient(IntWidth::W64, IConst::u64(100), IConst::u64(7), udiv, IConst::u64(14)));
    assert!(quotient(IntWidth::W64, IConst::u64(100), IConst::u64(0), udiv, IConst::u64(0)));
    assert!(quotient(IntWidth::W8, IConst::u8(255), IConst::u8(2), udiv, IConst::u8(127)));
    assert!(quotient(IntWidth::W32, IConst::u32(u32::MAX), IConst::u32(1), udiv, IConst::u32(u32::MAX)));
}

#[test]
fn signed_division_rounds_toward_zero_and_never_overflows() {
    let sdiv = ExecIrBuilder::sdiv;
    assert!(quotient(IntWidth::W64, IConst::i64(-7), IConst::i64(2), sdiv, IConst::i64(-3)));
    assert!(quotient(IntWidth::W64, IConst::i64(7), IConst::i64(-2), sdiv, IConst::i64(-3)));
    assert!(quotient(IntWidth::W64, IConst::i64(-7), IConst::i64(0), sdiv, IConst::i64(0)));
    assert!(quotient(
        IntWidth::W64,
        IConst::i64(i64::MIN),
        IConst::i64(-1),
        sdiv,
        IConst::i64(i64::MIN)
    ));
    assert!(quotient(
        IntWidth::W32,
        IConst::i32(i32::MIN),
        IConst::i32(-1),
        sdiv,
        IConst::i32(i32::MIN)
    ));
    assert!(quotient(IntWidth::W8, IConst::i8(-128), IConst::i8(2), sdiv, IConst::i8(-64)));
}

#[test]
fn constants_hold_their_bit_patterns() {
    assert_eq!(IConst::i8(-1).bits(), 0xff);
    assert_eq!(IConst::i16(-2).bits(), 0xfffe);
    assert_eq!(IConst::i32(i32::MIN).bits(), 0x8000_0000);
    assert_eq!(IConst::i64(-1).bits(), u64::MAX);
    assert_eq!(IConst::i32(5).bits(), 5);
    for width in [IntWidth::W8, IntWidth::W16, IntWidth::W32, IntWidth::W64] {
        assert_eq!(IConst::zero(width).bits(), 0);
        assert_eq!(IConst::one(width).bits(), 1);
        assert_eq!(IConst::min_negative(width).bits(), 1u64 << (width.bits() - 1));
        let all = if width.bits() == 64 { u64::MAX } else { (1u64 << width.bits()) - 1 };
        assert_eq!(IConst::negative_one(width).bits(), all);
        assert_eq!(IntWidth::from_bits(width.bits()), Some(width));
        assert_eq!(u64::from(width.bytes()), width.bytes_u64());
    }
    assert_eq!(IntWidth::from_bits(128), None);
    assert_eq!(IntWidth::max(), IntWidth::W64);
}

fn shift_result(emit: fn(&mut ExecIrBuilder, SSAValue) -> SSAValue, value: IConst) -> u64 {
    let mut builder = ExecIrBuilder::default();
    let value = builder.iconst(value);
    let result = emit(&mut builder, value);
    builder.terminate(Terminator::ReturnCode(result));
    let func = compile(builder);
    u64::from(call_compiled(&func, &mut ExecState::initial()))
}

#[test]
fn constant_shifts_follow_their_semantics() {
    let negative = IConst::i32(-8);
    assert_eq!(shift_result(|b, v| b.ushr_imm(v, 33), negative), 0x7fff_fffc);
    assert_eq!(shift_result(|b, v| b.sshr_imm(v, 33), negative), 0xffff_fffc);
    assert_eq!(shift_result(|b, v| b.shl_imm(v, 33), negative), 0xffff_fff0);
    assert_eq!(shift_result(|b, v| b.ushr_unbounded_imm(v, 33), negative), 0);
    assert_eq!(shift_result(|b, v| b.sshr_unbounded_imm(v, 33), negative), 0xffff_ffff);
    assert_eq!(shift_result(|b, v| b.shl_unbounded_imm(v, 32), negative), 0);
    assert_eq!(shift_result(|b, v| b.shl_unbounded_imm(v, 1), negative), 0xffff_fff0);
    assert_eq!(shift_result(|b, v| b.ushr_exact_imm(v, 4), negative), 0x0fff_ffff);
    assert_eq!(shift_result(|b, v| b.sshr_exact_imm(v, 2), negative), 0xffff_fffe);
    assert_eq!(shift_result(|b, v| b.shl_exact_imm(v, 31), IConst::u32(3)), 0x8000_0000);
}

#[test]
fn runtime_shifts_follow_their_semantics() {
    fn by(
        amount: u8,
        emit: fn(&mut ExecIrBuilder, SSAValue, SSAValue) -> SSAValue,
        value: IConst,
    ) -> u32 {
        let mut builder = ExecIrBuilder::default();
        let value = builder.iconst(value);
        let amount = builder.iconst(IConst::u8(amount));
        let result = emit(&mut builder, value, amount);
        builder.terminate(Terminator::ReturnCode(result));
        let func = compile(builder);
        call_compiled(&func, &mut ExecState::initial())
    }
    let value = IConst::u32(0x8000_0001);
    assert_eq!(by(33, ExecIrBuilder::ushr, value), 0x4000_0000);
    assert_eq!(by(33, ExecIrBuilder::sshr, value), 0xc000_0000);
    assert_eq!(by(33, ExecIrBuilder::shl, value), 2);
    assert_eq!(by(33, ExecIrBuilder::ushr_unbounded, value), 0);
    assert_eq!(by(33, ExecIrBuilder::sshr_unbounded, value), u32::MAX);
    assert_eq!(by(33, ExecIrBuilder::shl_unbounded, value), 0);
    assert_eq!(by(1, ExecIrBuilder::shl_unbounded, value), 2);
    assert_eq!(by(31, ExecIrBuilder::sshr_unbounded, value), u32::MAX);
}

#[test]
fn negated_booleans_are_the_other_booleans() {
    let mut builder = ExecIrBuilder::default();
    let one = builder.iconst(IConst::u64(1));
    let yes = builder.icmp_imm(IntCmp::Equal, one, IConst::u64(1));
    let no = builder.bitnot(yes);
    let yes_again = builder.bitnot(no);
    store_bool_as_x_reg::<0>(&mut builder, no);
    store_bool_as_x_reg::<1>(&mut builder, yes_again);
    let both = builder.bitand(yes, no);
    store_bool_as_x_reg::<2>(&mut builder, both);
    let either = builder.bitxor(yes, no);
    store_bool_as_x_reg::<3>(&mut builder, either);
    let flipped = builder.bitnot(one);
    builder.store_x_reg::<4>(flipped);
    let negated = builder.ineg(one);
    builder.store_x_reg::<5>(negated);
    let masked = builder.bitand_imm(negated, IConst::u64(0xff00));
    builder.store_x_reg::<6>(masked);
    let mixed = builder.bitor_imm(masked, IConst::u64(3));
    let mixed = builder.bitxor_imm(mixed, IConst::u64(1));
    builder.store_x_reg::<7>(mixed);
    let mut state = ExecState::initial();
    run_success(builder, &mut state);
    assert_eq!(state.x_registers[0..4], [0, 1, 0, 1]);
    assert_eq!(state.x_registers[4], !1);
    assert_eq!(state.x_registers[5], u64::MAX);
    assert_eq!(state.x_registers[6], 0xff00);
    assert_eq!(state.x_registers[7], 0xff02);
}

#[test]
fn next_insn_moves_the_program_counter() {
    let mut builder = ExecIrBuilder::default();
    builder.next_insn();
    builder.next_insn();
    let sp = builder.load_sp();
    let sp = builder.iadd_imm(sp, IConst::u64(16));
    builder.store_sp(sp);
    let x = builder.load_x_reg_dyn(3, IntWidth::W64);
    let product = builder.imul(x, x);
    builder.store_x_reg_dyn(4, product);
    let mut state = ExecState::initial();
    state.pc = 0x1000;
    state.sp = 0x2000;
    state.x_registers[3] = 12;
    run_success(builder, &mut state);
    assert_eq!(state.pc, 0x1008);
    assert_eq!(state.sp, 0x2010);
    assert_eq!(state.x_registers[4], 144);
}

fn safepoint_loop(every: u32) -> ExecIrBuilder {
    let mut builder = ExecIrBuilder::with_config(IrBuilderConfig { halt_check_every: every });
    let body = builder.create_block();
    builder.terminate(Terminator::Br(Jump::to(body)));
    builder.switch_to(body);
    for _ in 0..5 {
        let x = builder.load_x_reg::<0>(IntWidth::W64);
        let next = builder.iadd_imm(x, IConst::u64(1));
        builder.store_x_reg::<0>(next);
        builder.add_safepoint();
    }
    builder.terminate(Terminator::Br(Jump::to(body)));
    builder
}

#[test]
fn a_halt_request_stops_an_endless_loop() {
    for every in [1, 2, 3, 5, 128] {
        let func = compile(safepoint_loop(every));
        let mut machine = Machine::new();
        machine.store(HALT_REASON_ADDR, 4, 77);
        let mut state = ExecState::initial();
        assert_eq!(call_on(&mut machine, &func, &mut state), 77);
        // the request is taken, and was noticed in time
        assert_eq!(machine.load(HALT_REASON_ADDR, 4), 0);
        assert!(state.x_registers[0] <= u64::from(every));
        assert!(state.x_registers[0] > 0);
    }
}

fn safepoints_and_polls(ir: &ExecIr) -> (usize, usize) {
    let mut counts = (0, 0);
    for block in &ir.block_compile_order {
        for stmt in &ir.body.blocks[block.index as usize].stmts {
            match ir.body.stmts[stmt.index as usize].rvalue {
                StmtKind::Safepoint => counts.0 += 1,
                StmtKind::LoadHaltReason => counts.1 += 1,
                _ => {}
            }
        }
    }
    counts
}

#[test]
fn halt_checks_come_at_a_subset_of_safepoints() {
    let mut builder = ExecIrBuilder::with_config(IrBuilderConfig { halt_check_every: 3 });
    for _ in 0..10 {
        builder.add_safepoint();
    }
    assert_eq!(safepoints_and_polls(&builder.build()), (10, 3));
    assert_eq!(safepoints_and_polls(&safepoint_loop(1).build()), (5, 5));
    let mut builder = ExecIrBuilder::default();
    for _ in 0..127 {
        builder.add_safepoint();
    }
    assert_eq!(safepoints_and_polls(&builder.build()), (127, 0));
}

#[test]
fn every_value_is_bound_once() {
    // splitting blocks for halt checks keeps it so
    let ir = safepoint_loop(2).build();
    let mut bound = vec![false; ir.body.ssa_values.len()];
    let mut statements = 0;
    for block in &ir.body.blocks {
        for i in 0..block.parameters.len() {
            let value = block.parameters.get(i) as usize;
            assert!(!bound[value]);
            bound[value] = true;
        }
        for stmt in &block.stmts {
            statements += 1;
            for value in ir.body.stmts[stmt.index as usize].outputs.iter() {
                assert!(!bound[*value as usize]);
                bound[*value as usize] = true;
            }
        }
    }
    assert_eq!(statements, ir.body.stmts.len());
    assert!(bound.iter().all(|bound| *bound));
}

#[test]
fn blocks_are_compiled_in_reverse_postorder() {
    let mut builder = ExecIrBuilder::default();
    let left = builder.create_block();
    let right = builder.create_block();
    let join = builder.create_block();
    let unreachable = builder.create_block();
    let cond = builder.load_x_reg::<0>(IntWidth::W64);
    builder.terminate(Terminator::BrZ(cond, Jump::to(left), Jump::to(right)));
    builder.terminate_block(left, Terminator::Br(Jump::to(join)));
    builder.terminate_block(right, Terminator::Br(Jump::to(join)));
    builder.terminate_block(unreachable, Terminator::Br(Jump::to(join)));
    assert_eq!(builder.successors(Block::ENTRYPOINT()).as_slice(), &[left.index, right.index]);
    assert!(builder.successors(join).is_empty());
    let ir = builder.build();
    assert_eq!(ir.block_compile_order, vec![Block::ENTRYPOINT(), right, left, join]);
}

#[test]
fn a_loop_is_compiled_after_its_head() {
    let mut builder = ExecIrBuilder::default();
    let head = builder.create_block();
    let exit = builder.create_block();
    builder.terminate(Terminator::Br(Jump::to(head)));
    builder.switch_to(head);
    let cond = builder.load_x_reg::<0>(IntWidth::W8);
    builder.terminate(Terminator::BrNZ(cond, Jump::to(head), Jump::to(exit)));
    let ir = builder.build();
    assert_eq!(ir.block_compile_order, vec![Block::ENTRYPOINT(), head, exit]);
}

#[test]
fn a_branch_with_equal_edges_is_unconditional() {
    let mut builder = ExecIrBuilder::default();
    let target = builder.create_block();
    let cond = builder.load_x_reg::<0>(IntWidth::W64);
    builder.terminate(Terminator::BrZ(cond, Jump::to(target), Jump::to(target)));
    assert!(matches!(builder.blocks[0].terminator, Terminator::Br(_)));
    assert_eq!(builder.successors(Block::ENTRYPOINT()).as_slice(), &[target.index]);
    assert_eq!(builder.current_block(), Block::ENTRYPOINT());
}

#[test]
fn the_entry_block_is_never_cold() {
    let mut builder = ExecIrBuilder::default();
    builder.mark_current_block_cold();
    assert!(!builder.blocks[0].is_cold);
    let block = builder.create_block();
    builder.mark_block_bold(block);
    assert!(builder.blocks[1].is_cold);
}

#[test]
fn what_cannot_be_lowered_is_refused() {
    // a value that is computed in a block that does not run before
    let mut builder = ExecIrBuilder::default();
    let first = builder.create_block();
    let second = builder.create_block();
    let cond = builder.load_x_reg::<0>(IntWidth::W64);
    builder.terminate(Terminator::BrZ(cond, Jump::to(first), Jump::to(second)));
    builder.switch_to(first);
    let value = u64_const(&mut builder, 1);
    builder.switch_to(second);
    builder.store_x_reg::<1>(value);
    let refused = lower_function(&builder.build(), ClifTy::I64).err();
    assert_eq!(refused, Some(LoweringError::ValueNotLowered));

    // a halt reason of another width
    let mut builder = ExecIrBuilder::default();
    let value = u64_const(&mut builder, 1);
    builder.terminate(Terminator::ReturnCode(value));
    let refused = lower_function(&builder.build(), ClifTy::I64).err();
    assert_eq!(refused, Some(LoweringError::HaltReasonType));

    // a parameter of the entry block
    let mut builder = ExecIrBuilder::default();
    let _ = builder.add_block_parameter(Type::Bool);
    let refused = lower_function(&builder.build(), ClifTy::I64).err();
    assert_eq!(refused, Some(LoweringError::EntryParameters));

    // an offset and an element that do not fit their instructions
    let mut builder = ExecIrBuilder::default();
    let base_ptr = Arg::ExecState.as_ssa_value();
    let value = u64_const(&mut builder, 1);
    builder.emit_void_stmt(StmtKind::StoreHost {
        base_ptr,
        offset: 0x8000_0000,
        value,
        can_move: true,
    });
    let refused = lower_function(&builder.build(), ClifTy::I64).err();
    assert_eq!(refused, Some(LoweringError::OffsetTooLarge));

    let mut builder = ExecIrBuilder::default();
    let offset = u64_const(&mut builder, 1);
    let _ = builder.emit_1ret_stmt(StmtKind::PtrAdd { base_ptr, offset, elem_size: usize::MAX });
    let refused = lower_function(&builder.build(), ClifTy::I64).err();
    assert_eq!(refused, Some(LoweringError::ElementTooLarge));
}

#[test]
fn arguments_stand_in_abi_order() {
    let args = Arg::args();
    assert_eq!(
        args,
        vec![
            Arg::IoMMU,
            Arg::Tlb,
            Arg::ExecContext,
            Arg::ExecState,
            Arg::IoMMUIdentifier,
            Arg::HaltReasonPtr,
        ]
    );
    for arg in args {
        assert_eq!(Arg::from_ssa_value(arg.as_ssa_value()), Some(arg));
    }
    assert_eq!(Arg::from_ssa_value(SSAValue { index: 6 }), None);
    let signature = emu_core::lowering::exec_block_signature(ClifTy::I64);
    assert_eq!(signature, vec![ClifTy::I64; 6]);
}

const VM_BASE: u64 = PAGE_SIZE_U64 * 9;

fn vm_machine(read: bool, write: bool) -> Machine {
    let mut machine = Machine::new();
    let prot = MemProt { read, write, execute: true };
    machine
        .mmu
        .map(&mut machine.fabric, VM_BASE, 2 * PAGE_SIZE_U64, false, false, prot)
        .unwrap();
    let bytes: Vec<u8> = (0..2 * PAGE_SIZE_U64).map(|i| (i * 7 + 1) as u8).collect();
    machine
        .mmu
        .store_force(&mut machine.fabric, &mut machine.tlb, VM_BASE, &bytes)
        .unwrap();
    machine
}

fn vm_load_program(width: IntWidth) -> ClifFunction {
    let mut builder = ExecIrBuilder::default();
    let vaddr = builder.load_x_reg::<0>(IntWidth::W64);
    let value = builder.vm_load(vaddr, width);
    let zero = builder.iconst(IConst::zero(width));
    let same = builder.icmp(IntCmp::Equal, value, zero);
    store_bool_as_x_reg::<2>(&mut builder, same);
    if width == IntWidth::W64 {
        builder.store_x_reg::<1>(value);
    }
    compile(builder)
}

#[test]
fn vm_load_gives_the_same_through_the_tlb_and_through_the_host() {
    let func = vm_load_program(IntWidth::W64);
    for offset in [0, 8, 4088, 4092, 1] {
        let expected = {
            let mut machine = vm_machine(true, false);
            machine
                .mmu
                .load64_le(&machine.fabric, &mut machine.tlb, VM_BASE + offset)
                .unwrap()
        };
        for cached in [false, true] {
            let mut machine = vm_machine(true, false);
            if cached {
                machine.fill_tlb(VM_BASE, 1);
            }
            let mut state = ExecState::initial();
            state.x_registers[0] = VM_BASE + offset;
            assert_eq!(call_on(&mut machine, &func, &mut state), 0);
            assert_eq!(state.x_registers[1], expected);
        }
    }
}

#[test]
fn vm_load_of_an_unmapped_page_traps() {
    for (width, code) in [(IntWidth::W64, 0x108), (IntWidth::W8, 0x101)] {
        let func = vm_load_program(width);
        let mut machine = vm_machine(true, false);
        let mut state = ExecState::initial();
        state.x_registers[0] = 0x10;
        assert_eq!(call_on(&mut machine, &func, &mut state), code);
        let (fault, op) = machine.context.current_mem_fault.take_memory_fault().unwrap();
        assert_eq!(op, MemOp::Load);
        assert_eq!(fault.vaddr(), 0x10);
        assert!(matches!(fault.into_reason(), MemoryFaultReason::GeneralProtection));
    }
}

#[test]
fn vm_access_without_permission_records_the_fault_in_the_context() {
    let func = vm_load_program(IntWidth::W64);
    let mut machine = vm_machine(false, true);
    machine.fill_tlb(VM_BASE, 2 | 4);
    let mut state = ExecState::initial();
    state.x_registers[0] = VM_BASE + 8;
    assert_eq!(call_on(&mut machine, &func, &mut state), 0x108);
    assert_eq!(machine.load(EXEC_CONTEXT_ADDR + FAULT_VADDR_OFFSET as u64, 8), VM_BASE + 8);
    assert_eq!(machine.load(EXEC_CONTEXT_ADDR + FAULT_MEM_OP_OFFSET as u64, 1), 0);
    assert_eq!(machine.load(EXEC_CONTEXT_ADDR + FAULT_PENDING_OFFSET as u64, 1), 1);
}

fn vm_store_program() -> ClifFunction {
    let mut builder = ExecIrBuilder::default();
    let vaddr = builder.load_x_reg::<0>(IntWidth::W64);
    let value = builder.load_x_reg::<1>(IntWidth::W32);
    builder.vm_store(vaddr, value);
    let value = u64_const(&mut builder, 5);
    builder.store_x_reg::<2>(value);
    compile(builder)
}

#[test]
fn vm_store_writes_and_notes_the_page() {
    let func = vm_store_program();
    for cached in [false, true] {
        let mut machine = vm_machine(true, true);
        if cached {
            machine.fill_tlb(VM_BASE, 1 | 2 | 4);
        }
        let mut state = ExecState::initial();
        state.x_registers[0] = VM_BASE + 16;
        state.x_registers[1] = 0xffff_ffff_1234_5678;
        assert_eq!(call_on(&mut machine, &func, &mut state), 0);
        assert_eq!(state.x_registers[2], 5);
        let stored = machine
            .mmu
            .load32_le(&machine.fabric, &mut machine.tlb, VM_BASE + 16)
            .unwrap();
        assert_eq!(stored, 0x1234_5678);
        // compiled code notes the store in the page's flags by itself
        assert_eq!(machine.load(PAGE_FLAGS_ADDR, 1), u64::from(cached));
    }
}

/// Where the pending fault of a machine was raised, and by what, wherever it
/// was recorded.
fn pending_fault(machine: &mut Machine) -> Option<(u64, u8)> {
    if machine.load(EXEC_CONTEXT_ADDR + FAULT_PENDING_OFFSET as u64, 1) == 1 {
        let vaddr = machine.load(EXEC_CONTEXT_ADDR + FAULT_VADDR_OFFSET as u64, 8);
        let op = machine.load(EXEC_CONTEXT_ADDR + FAULT_MEM_OP_OFFSET as u64, 1);
        return Some((vaddr, op as u8));
    }
    let (fault, op) = machine.context.current_mem_fault.take_memory_fault()?;
    let vaddr = fault.vaddr();
    assert!(matches!(fault.into_reason(), MemoryFaultReason::GeneralProtection));
    Some((vaddr, mem_op_code(op)))
}

#[test]
fn faults_report_the_access_through_the_tlb_and_through_the_host() {
    // inside a page, and across the end of the mapping
    for vaddr in [VM_BASE + 8, VM_BASE + 2 * PAGE_SIZE_U64 - 4] {
        for cached in [false, true] {
            let mut machine = vm_machine(false, false);
            if cached {
                let tagged = tagged_page_ptr(0, machine.flags_of(VM_BASE));
                machine.fill_tlb(VM_BASE, tagged);
            }
            let mut state = ExecState::initial();
            state.x_registers[0] = vaddr;
            let func = vm_load_program(IntWidth::W64);
            assert_eq!(call_on(&mut machine, &func, &mut state), 0x108);
            assert_eq!(pending_fault(&mut machine), Some((vaddr, 0)));
        }
    }
    for cached in [false, true] {
        let mut machine = vm_machine(true, false);
        if cached {
            let tagged = tagged_page_ptr(0, machine.flags_of(VM_BASE));
            machine.fill_tlb(VM_BASE, tagged);
        }
        let mut state = ExecState::initial();
        state.x_registers[0] = VM_BASE + 12;
        assert_eq!(call_on(&mut machine, &vm_store_program(), &mut state), 0x104);
        assert_eq!(pending_fault(&mut machine), Some((VM_BASE + 12, 1)));
    }
}

#[test]
fn a_fault_of_the_second_page_reports_the_start_of_the_access() {
    let end = VM_BASE + 2 * PAGE_SIZE_U64;
    let mut machine = vm_machine(true, true);
    let (mmu, fabric, tlb, context) =
        (&machine.mmu, &mut machine.fabric, &mut machine.tlb, &mut machine.context);
    let mut out = 7;
    let status = ffi_support::load32_le(mmu, fabric, tlb, context, end - 2, &mut out);
    assert_eq!(status.code(), 1);
    let (fault, op) = context.current_mem_fault.take_memory_fault().unwrap();
    assert_eq!((fault.vaddr(), op), (end - 2, MemOp::Load));

    let status = ffi_support::store64_le(mmu, fabric, tlb, context, end - 1, 3);
    assert_eq!(status.code(), 1);
    let (fault, op) = context.current_mem_fault.take_memory_fault().unwrap();
    assert_eq!((fault.vaddr(), op), (end - 1, MemOp::Store));

    let mut out = 7;
    ffi_support::ldrexh(mmu, fabric, tlb, context, end + 6, &mut out);
    let (fault, op) = context.current_mem_fault.take_memory_fault().unwrap();
    assert_eq!((fault.vaddr(), op), (end + 6, MemOp::Load));
    // nothing was stored on the way
    let bytes = mmu.load_into_uninit(fabric, tlb, end - 2, 2).unwrap();
    let last = 2 * PAGE_SIZE_U64 - 1;
    assert_eq!(bytes, vec![((last - 1) * 7 + 1) as u8, (last * 7 + 1) as u8]);
}

#[test]
fn tags_say_what_a_page_allows() {
    let mut machine = vm_machine(true, false);
    let flags = machine.flags_of(VM_BASE);
    assert!(flags.read && flags.execute && !flags.write && !flags.dma_dev);
    assert_eq!(tagged_page_ptr(0x7000, flags), 0x7005);
    let flags = MemFlags { read: false, write: true, execute: false, cow: true, dma_dev: true };
    assert_eq!(tagged_page_ptr(0x20, flags), 0x20 | 2 | 8 | 16);
}

#[test]
fn an_exclusive_store_marks_the_page() {
    let mut machine = Machine::new();
    let prot = MemProt { read: true, write: true, execute: true };
    machine.mmu.map(&mut machine.fabric, VM_BASE, PAGE_SIZE_U64, false, false, prot).unwrap();
    let number = emu_core::memory::PageNumber { number: VM_BASE / PAGE_SIZE_U64 };
    let backing = machine.mmu.get_page(&machine.fabric, &mut machine.tlb, number).unwrap().backing;
    let (mmu, fabric, tlb, context) =
        (&machine.mmu, &mut machine.fabric, &mut machine.tlb, &mut machine.context);
    let mut out = 1;
    ffi_support::ldrex(mmu, fabric, tlb, context, VM_BASE + 4, &mut out);
    assert_eq!(out, 0);
    assert_eq!(fabric.store.pages[backing].dirty_page_flags, 0);
    assert_eq!(ffi_support::strex(mmu, fabric, tlb, context, VM_BASE + 4, 9).code(), 0);
    assert_eq!(fabric.store.pages[backing].dirty_page_flags, 1);
    assert_eq!(mmu.load32_le(fabric, tlb, VM_BASE + 4).unwrap(), 9);
}

#[test]
fn halt_checks_leave_through_one_block() {
    let ir = safepoint_loop(1).build();
    let leave = ir.body.leave_and_take_halt.unwrap();
    let block = &ir.body.blocks[leave.index as usize];
    assert!(block.is_cold && block.terminated);
    assert_eq!((block.parameters.len(), block.stmts.len()), (0, 1));
    let taking = ir.body.stmts[block.stmts[0].index as usize].rvalue;
    assert_eq!(taking, StmtKind::TakeHaltReason);
    assert!(matches!(block.terminator, Terminator::ReturnCode(_)));
}

#[test]
fn a_block_scope_comes_back_to_its_block() {
    let mut builder = ExecIrBuilder::default();
    let before = builder.current_block();
    let other = builder.create_block();
    let nine = builder.block_scope(other, |builder: &mut ExecIrBuilder| {
        assert_eq!(builder.current_block(), other);
        store_x_const::<1>(builder, 9);
        9
    });
    assert_eq!(nine, 9);
    assert_eq!(builder.current_block(), before);
    assert!(builder.blocks[before.index as usize].stmts.is_empty());
    assert!(!builder.blocks[other.index as usize].stmts.is_empty());
    builder.terminate(Terminator::Br(Jump::to(other)));
    let mut state = ExecState::initial();
    run_success(builder, &mut state);
    assert_eq!(state.x_registers[1], 9);
}

#[test]
fn exclusive_store_needs_the_reservation_of_its_load() {
    let mut builder = ExecIrBuilder::default();
    let vaddr = builder.load_x_reg::<0>(IntWidth::W64);
    let value = builder.ldrex(vaddr, IntWidth::W64);
    builder.store_x_reg::<1>(value);
    let next = builder.iadd_imm(value, IConst::u64(1));
    let first = builder.strex(vaddr, next);
    let second = builder.strex(vaddr, next);
    let first_stored = builder.icmp_imm(IntCmp::Equal, first, IConst::u8(0));
    store_bool_as_x_reg::<2>(&mut builder, first_stored);
    let second_failed = builder.icmp_imm(IntCmp::Equal, second, IConst::u8(1));
    store_bool_as_x_reg::<3>(&mut builder, second_failed);
    let again = builder.ldrex(vaddr, IntWidth::W64);
    builder.store_x_reg::<4>(again);
    builder.clrex();
    let third = builder.strex(vaddr, value);
    let third_failed = builder.icmp_imm(IntCmp::Equal, third, IConst::u8(1));
    store_bool_as_x_reg::<5>(&mut builder, third_failed);
    let func = compile(builder);

    let mut machine = vm_machine(true, true);
    let mut state = ExecState::initial();
    state.x_registers[0] = VM_BASE + 24;
    assert_eq!(call_on(&mut machine, &func, &mut state), 0);
    assert_eq!(state.x_registers[4], state.x_registers[1].wrapping_add(1));
    assert_eq!(state.x_registers[2], 1);
    assert_eq!(state.x_registers[3], 1);
    assert_eq!(state.x_registers[5], 1);

    // an exclusive access has to be aligned
    let mut machine = vm_machine(true, true);
    state.x_registers[0] = VM_BASE + 25;
    assert_eq!(call_on(&mut machine, &func, &mut state), 0x108);
    let (fault, op) = machine.context.current_mem_fault.take_memory_fault().unwrap();
    assert_eq!((fault.vaddr(), op), (VM_BASE + 25, MemOp::Load));
}
