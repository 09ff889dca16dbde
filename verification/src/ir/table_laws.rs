//! Widths, constants, arguments and codes: what they stand for, and that no two
//! of a kind are mixed up.
use vstd::prelude::*;
use crate::exec_context::MemOp;
use crate::ir::emit_laws::{as_signed, bit_count, numbers};
use crate::ir::layout::{mem_op_code, HaltReason};
use crate::ir::types::{
    load_callback, store_callback, AliasRegion, Arg, CallbackSignature, HostCallback, IConst,
    IntWidth, SSAValue, TypeFull,
};

verus! {

/// The sizes of a width agree with each other, and a bit count names its width.
pub proof fn law_widths(
    width: IntWidth,
    bits: u32,
    bytes: u8,
    bytes_u64: u64,
    largest: u64,
    named: Option<IntWidth>,
)
    requires
        call_ensures(IntWidth::bits, (width,), bits),
        call_ensures(IntWidth::bytes, (width,), bytes),
        call_ensures(IntWidth::bytes_u64, (width,), bytes_u64),
        call_ensures(IntWidth::max_value, (width,), largest),
        call_ensures(IntWidth::from_bits, (bits,), named),
    ensures
        bits == bit_count(width),
        bits == 8 * bytes,
        bytes_u64 == bytes,
        largest + 1 == numbers(width),
        named == Some(width),
{
}

/// Constants of a width: zero, one, the number with all bits set, which is
/// minus one, and the most negative number.
pub proof fn law_special_constants(
    width: IntWidth,
    zero: IConst,
    one: IConst,
    minus_one: IConst,
    least: IConst,
)
    requires
        call_ensures(IConst::zero, (width,), zero),
        call_ensures(IConst::one, (width,), one),
        call_ensures(IConst::negative_one, (width,), minus_one),
        call_ensures(IConst::min_negative, (width,), least),
    ensures
        zero.width == width && one.width == width && minus_one.width == width && least.width
            == width,
        zero.bits == 0,
        one.bits == 1,
        as_signed(width, minus_one.bits) == -1,
        2 * as_signed(width, least.bits) == -numbers(width),
{
}

/// A constant made of a signed number is that number when it is read as one.
pub proof fn law_signed_constants(
    a: i64,
    b: i32,
    c: i16,
    d: i8,
    ra: IConst,
    rb: IConst,
    rc: IConst,
    rd: IConst,
)
    requires
        call_ensures(IConst::i64, (a,), ra),
        call_ensures(IConst::i32, (b,), rb),
        call_ensures(IConst::i16, (c,), rc),
        call_ensures(IConst::i8, (d,), rd),
    ensures
        ra.width == IntWidth::W64 && as_signed(IntWidth::W64, ra.bits) == a,
        rb.width == IntWidth::W32 && as_signed(IntWidth::W32, rb.bits) == b,
        rc.width == IntWidth::W16 && as_signed(IntWidth::W16, rc.bits) == c,
        rd.width == IntWidth::W8 && as_signed(IntWidth::W8, rd.bits) == d,
{
}

/// No two regions have the same place.
pub proof fn law_regions_distinct(a: AliasRegion, b: AliasRegion, ra: usize, rb: usize)
    requires
        call_ensures(AliasRegion::index, (a,), ra),
        call_ensures(AliasRegion::index, (b,), rb),
    ensures
        ra < 8,
        ra == rb ==> a == b,
{
}

/// Every argument has a value of its own, from which it is found again, and is
/// listed once. Values that are no arguments name none.
pub proof fn law_arguments(
    arg: Arg,
    other: Arg,
    value: SSAValue,
    other_value: SSAValue,
    found: Option<Arg>,
    stranger: SSAValue,
    of_stranger: Option<Arg>,
    all: Vec<Arg>,
    ty: TypeFull,
)
    requires
        call_ensures(Arg::as_ssa_value, (arg,), value),
        call_ensures(Arg::as_ssa_value, (other,), other_value),
        call_ensures(Arg::from_ssa_value, (value,), found),
        call_ensures(Arg::from_ssa_value, (stranger,), of_stranger),
        call_ensures(Arg::args, (), all),
        call_ensures(Arg::ty, (arg,), ty),
    ensures
        value == other_value ==> arg == other,
        found == Some(arg),
        stranger.index >= 6 ==> of_stranger is None,
        all@.len() == 6,
        all@.no_duplicates(),
        all@.contains(arg),
        ty is HostPtr,
{
    let place = match arg {
        Arg::IoMMU => 0int,
        Arg::Tlb => 1,
        Arg::ExecContext => 2,
        Arg::ExecState => 3,
        Arg::IoMMUIdentifier => 4,
        Arg::HaltReasonPtr => 5,
    };
    assert(all@[place] == arg);
}

/// No two memory operations, and no two access sizes of a memory trap, have the
/// same code, and no memory trap is taken for no reason at all.
pub proof fn law_codes_distinct(
    op: MemOp,
    other: MemOp,
    code: u8,
    other_code: u8,
    bytes: u8,
    more: u8,
    trap: HaltReason,
    other_trap: HaltReason,
)
    requires
        call_ensures(mem_op_code, (op,), code),
        call_ensures(mem_op_code, (other,), other_code),
        call_ensures(HaltReason::memory_trap, (bytes,), trap),
        call_ensures(HaltReason::memory_trap, (more,), other_trap),
    ensures
        code == other_code ==> op == other,
        trap == other_trap ==> bytes == more,
        trap.code != 0,
        trap.code % 0x100 == bytes,
{
}

/// The callback of an access is that of its width and kind. Its arguments come
/// in the order: the MMU, the TLB, the context, the guest address, and then
/// where the value goes or what is stored; its status is a byte.
pub proof fn law_callbacks(
    width: IntWidth,
    exclusive: bool,
    loading: (HostCallback, CallbackSignature),
    storing: (HostCallback, CallbackSignature),
    load_args: Vec<TypeFull>,
    store_args: Vec<TypeFull>,
    load_ret: Option<TypeFull>,
    store_ret: Option<TypeFull>,
)
    requires
        call_ensures(load_callback, (width, exclusive), loading),
        call_ensures(store_callback, (width, exclusive), storing),
        call_ensures(CallbackSignature::args, (loading.1,), load_args),
        call_ensures(CallbackSignature::args, (storing.1,), store_args),
        call_ensures(CallbackSignature::ret, (loading.1,), load_ret),
        call_ensures(CallbackSignature::ret, (storing.1,), store_ret),
    ensures
        loading.0 == (if exclusive {
            HostCallback::LoadExclusive(width)
        } else {
            HostCallback::Load(width)
        }),
        storing.0 == (if exclusive {
            HostCallback::StoreExclusive(width)
        } else {
            HostCallback::Store(width)
        }),
        load_args@.len() == 5 && store_args@.len() == 5,
        forall|i: int| 0 <= i < 4 ==> #[trigger] load_args@[i] == store_args@[i],
        load_args@[0] == TypeFull::HostPtr(AliasRegion::ReadOnly),
        load_args@[1] == TypeFull::HostPtr(AliasRegion::Tlb),
        load_args@[2] == TypeFull::HostPtr(AliasRegion::ExecContext),
        load_args@[3] == TypeFull::Int(IntWidth::W64),
        load_args@[4] is HostPtr,
        store_args@[4] == TypeFull::Int(width),
        load_ret == Some(TypeFull::Int(IntWidth::W8)),
        store_ret == load_ret,
{
}

} // verus!
