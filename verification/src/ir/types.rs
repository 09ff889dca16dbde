//! The vocabulary of the intermediate representation: types, constants,
//! statements and control flow.
use vstd::prelude::*;
use vstd::std_specs::convert::FromSpecImpl;
use arrayvec::ArrayVec;
use crate::inline_list::{pair_items, pair_new, pair_push, InlineList};

verus! {

/// The width of an IR integer, in bytes.
#[derive(Debug, Clone, Copy, PartialEq, Eq, Structural)]
pub enum IntWidth {
    /// 8-bit integer.
    W8,
    /// 16-bit integer.
    W16,
    /// 32-bit integer.
    W32,
    /// 64-bit integer.
    W64,
}

impl IntWidth {
    /// The number of bits.
    pub open spec fn spec_bits(self) -> int {
        match self {
            IntWidth::W8 => 8,
            IntWidth::W16 => 16,
            IntWidth::W32 => 32,
            IntWidth::W64 => 64,
        }
    }

    /// The number of bytes.
    pub open spec fn spec_bytes(self) -> int {
        self.spec_bits() / 8
    }

    /// The largest unsigned value of the width: all bits set.
    pub open spec fn mask(self) -> u64 {
        match self {
            IntWidth::W8 => 0xff,
            IntWidth::W16 => 0xffff,
            IntWidth::W32 => 0xffff_ffff,
            IntWidth::W64 => 0xffff_ffff_ffff_ffff,
        }
    }

    /// The value of the sign bit.
    pub open spec fn sign_bit(self) -> u64 {
        match self {
            IntWidth::W8 => 0x80,
            IntWidth::W16 => 0x8000,
            IntWidth::W32 => 0x8000_0000,
            IntWidth::W64 => 0x8000_0000_0000_0000,
        }
    }

    /// Returns the width for a bit count of 8, 16, 32, or 64, and `None`
    /// for any other count.
    pub fn from_bits(bits: u32) -> (r: Option<Self>)
        ensures
            r matches Some(width) ==> width.spec_bits() == bits,
            r is None <==> bits != 8 && bits != 16 && bits != 32 && bits != 64,
    {
        match bits {
            8 => Some(IntWidth::W8),
            16 => Some(IntWidth::W16),
            32 => Some(IntWidth::W32),
            64 => Some(IntWidth::W64),
            _ => None,
        }
    }

    /// Returns the width in bits.
    pub fn bits(self) -> (r: u32)
        ensures
            r == self.spec_bits(),
    {
        match self {
            IntWidth::W8 => 8,
            IntWidth::W16 => 16,
            IntWidth::W32 => 32,
            IntWidth::W64 => 64,
        }
    }

    /// Returns the width in bytes as a `u64`.
    pub fn bytes_u64(self) -> (r: u64)
        ensures
            r == self.spec_bytes(),
    {
        self.bytes() as u64
    }

    /// Returns the width in bytes.
    pub fn bytes(self) -> (r: u8)
        ensures
            r == self.spec_bytes(),
    {
        match self {
            IntWidth::W8 => 1,
            IntWidth::W16 => 2,
            IntWidth::W32 => 4,
            IntWidth::W64 => 8,
        }
    }

    /// The widest supported integer width.
    pub fn max() -> (r: Self)
        ensures
            r == IntWidth::W64,
            forall|width: IntWidth| #[trigger] width.spec_bits() <= r.spec_bits(),
    {
        IntWidth::W64
    }

    /// The largest unsigned value of the width.
    pub fn max_value(self) -> (r: u64)
        ensures
            r == self.mask(),
    {
        match self {
            IntWidth::W8 => 0xff,
            IntWidth::W16 => 0xffff,
            IntWidth::W32 => 0xffff_ffff,
            IntWidth::W64 => 0xffff_ffff_ffff_ffff,
        }
    }
}

/// An integer constant of a specific [`IntWidth`], stored as its
/// zero-extended bit pattern.
#[derive(Debug, Clone, Copy, PartialEq, Eq, Structural)]
pub struct IConst {
    pub width: IntWidth,
    pub bits: u64,
}

impl IConst {
    /// The bits fit the width.
    pub open spec fn wf(self) -> bool {
        self.bits <= self.width.mask()
    }

    /// The constant `0` at the given width.
    pub fn zero(width: IntWidth) -> (r: Self)
        ensures
            r == (IConst { width, bits: 0 }),
            r.wf(),
    {
        IConst { width, bits: 0 }
    }

    /// The constant `1` at the given width.
    pub fn one(width: IntWidth) -> (r: Self)
        ensures
            r == (IConst { width, bits: 1 }),
            r.wf(),
    {
        IConst { width, bits: 1 }
    }

    /// The most negative signed value at the given width (e.g. `i32::MIN`
    /// for [`IntWidth::W32`]).
    pub fn min_negative(width: IntWidth) -> (r: Self)
        ensures
            r == (IConst { width, bits: width.sign_bit() }),
            r.wf(),
    {
        IConst { width, bits: width.max_value() / 2 + 1 }
    }

    /// The constant `-1` (all bits set) at the given width.
    pub fn negative_one(width: IntWidth) -> (r: Self)
        ensures
            r == (IConst { width, bits: width.mask() }),
            r.wf(),
    {
        IConst { width, bits: width.max_value() }
    }

    /// Returns the constant's integer width.
    pub fn width(self) -> (r: IntWidth)
        ensures
            r == self.width,
    {
        self.width
    }

    /// Returns the constant's bits as its zero-extended bit pattern.
    pub fn bits(self) -> (r: u64)
        ensures
            r == self.bits,
    {
        self.bits
    }

    /// Creates a `u64`-width constant from `value`.
    pub fn u64(value: u64) -> (r: Self)
        ensures
            r.width == IntWidth::W64,
            r.bits == value,
            r.wf(),
    {
        IConst { width: IntWidth::W64, bits: value }
    }

    /// Creates a `u32`-width constant from `value`.
    pub fn u32(value: u32) -> (r: Self)
        ensures
            r.width == IntWidth::W32,
            r.bits == value,
            r.wf(),
    {
        IConst { width: IntWidth::W32, bits: value as u64 }
    }

    /// Creates a `u16`-width constant from `value`.
    pub fn u16(value: u16) -> (r: Self)
        ensures
            r.width == IntWidth::W16,
            r.bits == value,
            r.wf(),
    {
        IConst { width: IntWidth::W16, bits: value as u64 }
    }

    /// Creates a `u8`-width constant from `value`.
    pub fn u8(value: u8) -> (r: Self)
        ensures
            r.width == IntWidth::W8,
            r.bits == value,
            r.wf(),
    {
        IConst { width: IntWidth::W8, bits: value as u64 }
    }

    /// Creates an `i64`-width constant from `value`, storing its two's
    /// complement bit pattern.
    pub fn i64(value: i64) -> (r: Self)
        ensures
            r.width == IntWidth::W64,
            r.bits == (if value < 0 {
                value + 0x1_0000_0000_0000_0000
            } else {
                value as int
            }),
            r.wf(),
    {
        assert(value < 0 ==> value as u64 == value + 0x1_0000_0000_0000_0000) by (bit_vector);
        assert(value >= 0 ==> value as u64 == value) by (bit_vector);
        IConst { width: IntWidth::W64, bits: value as u64 }
    }

    /// Creates an `i32`-width constant from `value`, storing its two's
    /// complement bit pattern.
    pub fn i32(value: i32) -> (r: Self)
        ensures
            r.width == IntWidth::W32,
            r.bits == (if value < 0 {
                value + 0x1_0000_0000
            } else {
                value as int
            }),
            r.wf(),
    {
        assert(value < 0 ==> value as u32 == value + 0x1_0000_0000) by (bit_vector);
        assert(value >= 0 ==> value as u32 == value) by (bit_vector);
        IConst { width: IntWidth::W32, bits: (value as u32) as u64 }
    }

    /// Creates an `i16`-width constant from `value`, storing its two's
    /// complement bit pattern.
    pub fn i16(value: i16) -> (r: Self)
        ensures
            r.width == IntWidth::W16,
            r.bits == (if value < 0 {
                value + 0x1_0000
            } else {
                value as int
            }),
            r.wf(),
    {
        assert(value < 0 ==> value as u16 == value + 0x1_0000) by (bit_vector);
        assert(value >= 0 ==> value as u16 == value) by (bit_vector);
        IConst { width: IntWidth::W16, bits: (value as u16) as u64 }
    }

    /// Creates an `i8`-width constant from `value`, storing its two's
    /// complement bit pattern.
    pub fn i8(value: i8) -> (r: Self)
        ensures
            r.width == IntWidth::W8,
            r.bits == (if value < 0 {
                value + 0x100
            } else {
                value as int
            }),
            r.wf(),
    {
        assert(value < 0 ==> value as u8 == value + 0x100) by (bit_vector);
        assert(value >= 0 ==> value as u8 == value) by (bit_vector);
        IConst { width: IntWidth::W8, bits: (value as u8) as u64 }
    }
}

/// A disjoint host-memory region as seen by the IR's alias analysis.
///
/// Two host pointers with different `AliasRegion`s are assumed never to
/// alias, which lets the backends reorder or eliminate loads and stores
/// across regions.
#[derive(Debug, Clone, Copy, PartialEq, Eq, Structural)]
pub enum AliasRegion {
    /// The guest CPU's architectural state.
    ExecState,
    /// The per-CPU execution context.
    ExecContext,
    /// The translation lookaside buffer.
    Tlb,
    /// The halt-reason word polled at safepoints.
    HaltReason,
    /// Opaque memory that is never written through tracked pointers.
    ReadOnly,
    /// JIT-internal scratch stack slots.
    ScratchSpace,
    /// Guest virtual memory (page contents).
    VirtualMemory,
    /// Page metadata such as permission and dirty flags.
    PageFlags,
}

/// The number of alias regions.
pub const ALIAS_REGION_COUNT: usize = 8;

impl AliasRegion {
    /// The place of the region among all of them.
    pub open spec fn spec_index(self) -> int {
        match self {
            AliasRegion::ExecState => 0,
            AliasRegion::ExecContext => 1,
            AliasRegion::Tlb => 2,
            AliasRegion::HaltReason => 3,
            AliasRegion::ReadOnly => 4,
            AliasRegion::ScratchSpace => 5,
            AliasRegion::VirtualMemory => 6,
            AliasRegion::PageFlags => 7,
        }
    }

    /// The place of the region among all of them.
    pub fn index(self) -> (r: usize)
        ensures
            r == self.spec_index(),
            r < ALIAS_REGION_COUNT,
    {
        match self {
            AliasRegion::ExecState => 0,
            AliasRegion::ExecContext => 1,
            AliasRegion::Tlb => 2,
            AliasRegion::HaltReason => 3,
            AliasRegion::ReadOnly => 4,
            AliasRegion::ScratchSpace => 5,
            AliasRegion::VirtualMemory => 6,
            AliasRegion::PageFlags => 7,
        }
    }
}

/// The type of an [`SSAValue`].
#[derive(Debug, Clone, Copy, PartialEq, Eq, Structural)]
pub enum TypeFull {
    /// An integer of the given width.
    Int(IntWidth),
    /// A boolean (the result of comparisons and conditions).
    Bool,
    /// A host pointer into the given [`AliasRegion`].
    HostPtr(AliasRegion),
}

/// The type of an [`SSAValue`] without any pointers available.
#[derive(Debug, Clone, Copy, PartialEq, Eq, Structural)]
pub enum Type {
    /// An integer of the given width.
    Int(IntWidth),
    /// A boolean (the result of comparisons and conditions).
    Bool,
}

impl Type {
    /// 64-bit integer type.
    #[allow(non_snake_case)]
    pub fn I64() -> (r: Type)
        ensures
            r == Type::Int(IntWidth::W64),
    {
        Type::Int(IntWidth::W64)
    }

    /// 32-bit integer type.
    #[allow(non_snake_case)]
    pub fn I32() -> (r: Type)
        ensures
            r == Type::Int(IntWidth::W32),
    {
        Type::Int(IntWidth::W32)
    }

    /// 16-bit integer type.
    #[allow(non_snake_case)]
    pub fn I16() -> (r: Type)
        ensures
            r == Type::Int(IntWidth::W16),
    {
        Type::Int(IntWidth::W16)
    }

    /// 8-bit integer type.
    #[allow(non_snake_case)]
    pub fn I8() -> (r: Type)
        ensures
            r == Type::Int(IntWidth::W8),
    {
        Type::Int(IntWidth::W8)
    }
}

impl From<Type> for TypeFull {
    fn from(value: Type) -> (r: Self) {
        match value {
            Type::Int(width) => TypeFull::Int(width),
            Type::Bool => TypeFull::Bool,
        }
    }
}

impl FromSpecImpl<Type> for TypeFull {
    open spec fn obeys_from_spec() -> bool {
        true
    }

    open spec fn from_spec(value: Type) -> TypeFull {
        match value {
            Type::Int(width) => TypeFull::Int(width),
            Type::Bool => TypeFull::Bool,
        }
    }
}

/// The type of value produced by a host-memory load (a [`TypeFull`] without
/// `Bool`, which cannot be loaded directly).
#[derive(Debug, Clone, Copy, PartialEq, Eq, Structural)]
pub enum LoadType {
    /// Load an integer of the given width.
    Int(IntWidth),
    /// Load a host pointer belonging to the given [`AliasRegion`].
    HostPtr(AliasRegion),
}

/// A handle to a typed, single-assignment IR value.
///
/// Values are produced by the builder's emitters and by block parameters and
/// are only meaningful within the builder/IR that created them.
#[derive(Debug, Clone, Copy, PartialEq, Eq, Structural)]
pub struct SSAValue {
    pub index: u64,
}

/// A handle to a stack allocation of the compiled function.
#[derive(Debug, Clone, Copy, PartialEq, Eq, Structural)]
pub struct StackSlot {
    pub index: u64,
}

/// What a stack allocation asks for.
#[derive(Debug, Clone, Copy, PartialEq, Eq, Structural)]
pub struct StackSlotData {
    pub size: u32,
    pub align: u8,
}

/// A handle to a basic block in the IR's control-flow graph.
///
/// Blocks are created with the builder's `create_block`, filled by emitting
/// statements while they are the current block, and ended with a
/// [`Terminator`].
#[derive(Debug, Clone, Copy, PartialEq, Eq, Structural)]
pub struct Block {
    pub index: u64,
}

impl Block {
    pub open spec fn entrypoint() -> Block {
        Block { index: 0 }
    }

    /// The function entry block. It implicitly receives every [`Arg`] as a
    /// block parameter and cannot be branched to.
    #[allow(non_snake_case)]
    pub fn ENTRYPOINT() -> (r: Block)
        ensures
            r == Block::entrypoint(),
    {
        Block { index: 0 }
    }
}

/// A handle to a statement.
#[derive(Debug, Clone, Copy, PartialEq, Eq, Structural)]
pub struct Stmt {
    pub index: u64,
}

/// A handle to the arguments of a host call.
#[derive(Debug, Clone, Copy, PartialEq, Eq, Structural)]
pub struct CallArgs {
    pub index: u64,
}

/// One of the fixed arguments every compiled exec chunk receives.
///
/// These map one-to-one onto the parameters of the compiled function and are
/// available in the IR as the entry block's parameters (see
/// [`Arg::as_ssa_value`]).
#[derive(Debug, Clone, Copy, PartialEq, Eq, Structural)]
pub enum Arg {
    /// Pointer to the MMU servicing guest memory accesses.
    IoMMU,
    /// Pointer to the CPU's TLB.
    Tlb,
    /// Pointer to the per-CPU execution context.
    ExecContext,
    /// Pointer to the guest CPU's architectural state.
    ExecState,
    /// The MMU identity token used to validate TLB entries.
    IoMMUIdentifier,
    /// Pointer to the halt-reason word polled at safepoints.
    HaltReasonPtr,
}

/// The number of arguments.
pub const ARG_COUNT: u64 = 6;

impl Arg {
    /// The argument at a place of the ABI order.
    pub open spec fn at(place: int) -> Arg {
        if place == 0 {
            Arg::IoMMU
        } else if place == 1 {
            Arg::Tlb
        } else if place == 2 {
            Arg::ExecContext
        } else if place == 3 {
            Arg::ExecState
        } else if place == 4 {
            Arg::IoMMUIdentifier
        } else {
            Arg::HaltReasonPtr
        }
    }

    /// Returns every argument in its ABI order.
    pub fn args() -> (r: Vec<Arg>)
        ensures
            r@ == Seq::new(ARG_COUNT as nat, |place: int| Arg::at(place)),
    {
        let r: Vec<Arg> = vec![
            Arg::IoMMU,
            Arg::Tlb,
            Arg::ExecContext,
            Arg::ExecState,
            Arg::IoMMUIdentifier,
            Arg::HaltReasonPtr,
        ];
        assert(r@ =~= Seq::new(ARG_COUNT as nat, |place: int| Arg::at(place)));
        r
    }

    pub open spec fn spec_ty(self) -> TypeFull {
        match self {
            Arg::IoMMU => TypeFull::HostPtr(AliasRegion::ReadOnly),
            Arg::Tlb => TypeFull::HostPtr(AliasRegion::Tlb),
            Arg::ExecContext => TypeFull::HostPtr(AliasRegion::ExecContext),
            Arg::ExecState => TypeFull::HostPtr(AliasRegion::ExecState),
            Arg::IoMMUIdentifier => TypeFull::HostPtr(AliasRegion::ReadOnly),
            Arg::HaltReasonPtr => TypeFull::HostPtr(AliasRegion::HaltReason),
        }
    }

    /// Returns the IR type of this argument.
    pub fn ty(self) -> (r: TypeFull)
        ensures
            r == self.spec_ty(),
    {
        // nothing dereferences the MMU or its identifier, and neither aliases
        // anything else that is tracked: for the IR they are opaque
        match self {
            Arg::IoMMU => TypeFull::HostPtr(AliasRegion::ReadOnly),
            Arg::Tlb => TypeFull::HostPtr(AliasRegion::Tlb),
            Arg::ExecContext => TypeFull::HostPtr(AliasRegion::ExecContext),
            Arg::ExecState => TypeFull::HostPtr(AliasRegion::ExecState),
            Arg::IoMMUIdentifier => TypeFull::HostPtr(AliasRegion::ReadOnly),
            Arg::HaltReasonPtr => TypeFull::HostPtr(AliasRegion::HaltReason),
        }
    }

    pub open spec fn spec_value(self) -> SSAValue {
        match self {
            Arg::IoMMU => SSAValue { index: 5 },
            Arg::Tlb => SSAValue { index: 2 },
            Arg::ExecContext => SSAValue { index: 1 },
            Arg::ExecState => SSAValue { index: 0 },
            Arg::IoMMUIdentifier => SSAValue { index: 3 },
            Arg::HaltReasonPtr => SSAValue { index: 4 },
        }
    }

    /// Returns the pre-allocated [`SSAValue`] representing this argument in
    /// the entry block.
    pub fn as_ssa_value(self) -> (r: SSAValue)
        ensures
            r == self.spec_value(),
            r.index < ARG_COUNT,
    {
        match self {
            Arg::IoMMU => SSAValue { index: 5 },
            Arg::Tlb => SSAValue { index: 2 },
            Arg::ExecContext => SSAValue { index: 1 },
            Arg::ExecState => SSAValue { index: 0 },
            Arg::IoMMUIdentifier => SSAValue { index: 3 },
            Arg::HaltReasonPtr => SSAValue { index: 4 },
        }
    }

    /// Returns the argument that `value` represents, or `None` if `value` is
    /// not one of the pre-allocated argument values.
    pub fn from_ssa_value(value: SSAValue) -> (r: Option<Self>)
        ensures
            r is Some <==> value.index < ARG_COUNT,
            r matches Some(arg) ==> arg.spec_value() == value,
    {
        match value.index {
            0 => Some(Arg::ExecState),
            1 => Some(Arg::ExecContext),
            2 => Some(Arg::Tlb),
            3 => Some(Arg::IoMMUIdentifier),
            4 => Some(Arg::HaltReasonPtr),
            5 => Some(Arg::IoMMU),
            _ => None,
        }
    }
}

/// A two-operand integer arithmetic operation.
///
/// Both operands must have the same integer type, which is also the result
/// type.
#[derive(Debug, Clone, Copy, PartialEq, Eq, Structural)]
pub enum ArithBinOp {
    /// Wrapping integer add.
    Add,
    /// Wrapping integer subtract.
    Sub,
    /// Wrapping integer multiply.
    Mul,
    /// Unsigned integer division. It has no meaning if the divisor is `0`.
    UncheckedUDiv,
    /// Signed integer division. It has no meaning if the divisor is `0`, or
    /// if it is `-1` and the dividend is the most negative value.
    UncheckedSDiv,
}

/// A two-operand integer operation that also produces a signed-overflow flag
/// as a second output.
#[derive(Debug, Clone, Copy, PartialEq, Eq, Structural)]
pub enum OverflowingBinOp {
    /// Wrapping add, plus a signed-overflow flag.
    Add,
    /// Wrapping subtract, plus a signed-overflow flag.
    Sub,
}

#[derive(Debug, Clone, Copy, PartialEq, Eq, Structural)]
pub enum BitwiseOp {
    And,
    Or,
    Xor,
}

#[derive(Debug, Clone, Copy, PartialEq, Eq, Structural)]
pub enum ShiftOp {
    SignExtendShr,
    ZeroExtendShr,
    Shl,
}

/// An integer comparison predicate, producing a boolean.
#[derive(Clone, Copy, PartialEq, Eq, Debug, Hash, Structural)]
pub enum IntCmp {
    /// `==`.
    Equal,
    /// `!=`.
    NotEqual,
    /// Signed `<`.
    SignedLessThan,
    /// Signed `<=`.
    SignedLessThanOrEqual,
    /// Signed `>`.
    SignedGreaterThan,
    /// Signed `>=`.
    SignedGreaterThanOrEqual,
    /// Unsigned `<`.
    UnsignedLessThan,
    /// Unsigned `<=`.
    UnsignedLessThanOrEqual,
    /// Unsigned `>`.
    UnsignedGreaterThan,
    /// Unsigned `>=`.
    UnsignedGreaterThanOrEqual,
}

/// A function of the host that compiled code can call.
#[derive(Debug, Clone, Copy, PartialEq, Eq, Structural)]
pub enum HostCallback {
    /// Loads an integer of guest memory into the scratch space.
    Load(IntWidth),
    /// Loads an integer of guest memory and reserves its address.
    LoadExclusive(IntWidth),
    /// Stores an integer to guest memory.
    Store(IntWidth),
    /// Stores an integer to guest memory if the reservation still holds.
    StoreExclusive(IntWidth),
    /// Drops the reservation.
    ClearExclusive,
}

/// The signature of a [`HostCallback`].
#[derive(Debug, Clone, Copy, PartialEq, Eq, Structural)]
pub enum CallbackSignature {
    Load,
    Store(IntWidth),
    ClearExclusive,
}

impl CallbackSignature {
    /// The types of the arguments.
    pub open spec fn spec_args(self) -> Seq<TypeFull> {
        match self {
            CallbackSignature::Load => seq![
                TypeFull::HostPtr(AliasRegion::ReadOnly),
                TypeFull::HostPtr(AliasRegion::Tlb),
                TypeFull::HostPtr(AliasRegion::ExecContext),
                TypeFull::Int(IntWidth::W64),
                TypeFull::HostPtr(AliasRegion::ScratchSpace),
            ],
            CallbackSignature::Store(width) => seq![
                TypeFull::HostPtr(AliasRegion::ReadOnly),
                TypeFull::HostPtr(AliasRegion::Tlb),
                TypeFull::HostPtr(AliasRegion::ExecContext),
                TypeFull::Int(IntWidth::W64),
                TypeFull::Int(width),
            ],
            CallbackSignature::ClearExclusive => seq![TypeFull::HostPtr(AliasRegion::ExecContext)],
        }
    }

    /// The type of the result.
    pub open spec fn spec_ret(self) -> Option<TypeFull> {
        match self {
            CallbackSignature::ClearExclusive => None,
            _ => Some(TypeFull::Int(IntWidth::W8)),
        }
    }

    /// The types of the arguments.
    pub fn args(self) -> (r: Vec<TypeFull>)
        ensures
            r@ == self.spec_args(),
    {
        let r: Vec<TypeFull> = match self {
            CallbackSignature::Load => vec![
                TypeFull::HostPtr(AliasRegion::ReadOnly),
                TypeFull::HostPtr(AliasRegion::Tlb),
                TypeFull::HostPtr(AliasRegion::ExecContext),
                // the guest address
                TypeFull::Int(IntWidth::W64),
                // where the value goes
                TypeFull::HostPtr(AliasRegion::ScratchSpace),
            ],
            CallbackSignature::Store(width) => vec![
                TypeFull::HostPtr(AliasRegion::ReadOnly),
                TypeFull::HostPtr(AliasRegion::Tlb),
                TypeFull::HostPtr(AliasRegion::ExecContext),
                // the guest address
                TypeFull::Int(IntWidth::W64),
                // the stored value
                TypeFull::Int(width),
            ],
            CallbackSignature::ClearExclusive => vec![TypeFull::HostPtr(AliasRegion::ExecContext)],
        };
        assert(r@ =~= self.spec_args());
        r
    }

    /// The type of the result.
    pub fn ret(self) -> (r: Option<TypeFull>)
        ensures
            r == self.spec_ret(),
    {
        match self {
            CallbackSignature::ClearExclusive => None,
            _ => Some(TypeFull::Int(IntWidth::W8)),
        }
    }
}

/// The callback that loads an integer, with its signature.
pub open spec fn spec_load_callback(width: IntWidth, exclusive: bool) -> (
    HostCallback,
    CallbackSignature,
) {
    (
        if exclusive {
            HostCallback::LoadExclusive(width)
        } else {
            HostCallback::Load(width)
        },
        CallbackSignature::Load,
    )
}

/// The callback that stores an integer, with its signature.
pub open spec fn spec_store_callback(width: IntWidth, exclusive: bool) -> (
    HostCallback,
    CallbackSignature,
) {
    (
        if exclusive {
            HostCallback::StoreExclusive(width)
        } else {
            HostCallback::Store(width)
        },
        CallbackSignature::Store(width),
    )
}

pub fn load_callback(width: IntWidth, exclusive: bool) -> (r: (HostCallback, CallbackSignature))
    ensures
        r == spec_load_callback(width, exclusive),
{
    if exclusive {
        (HostCallback::LoadExclusive(width), CallbackSignature::Load)
    } else {
        (HostCallback::Load(width), CallbackSignature::Load)
    }
}

pub fn store_callback(width: IntWidth, exclusive: bool) -> (r: (HostCallback, CallbackSignature))
    ensures
        r == spec_store_callback(width, exclusive),
{
    if exclusive {
        (HostCallback::StoreExclusive(width), CallbackSignature::Store(width))
    } else {
        (HostCallback::Store(width), CallbackSignature::Store(width))
    }
}

/// What a statement computes.
#[allow(inconsistent_fields)]
#[derive(Debug, Clone, Copy, PartialEq, Eq, Structural)]
pub enum StmtKind {
    /// Integer constant.
    IConst(IConst),
    /// Integer arithmetic.
    ///
    /// `lhs` and `rhs` have the same integer type, which the result has too.
    ArithBinOp { op: ArithBinOp, lhs: SSAValue, rhs: SSAValue },
    IntNeg(SSAValue),
    /// Produces the arithmetic result and the signed overflow flag.
    OverflowingBinOp { op: OverflowingBinOp, lhs: SSAValue, rhs: SSAValue },
    IntCmp { predicate: IntCmp, lhs: SSAValue, rhs: SSAValue },
    IntCmpImm { predicate: IntCmp, lhs: SSAValue, rhs: u64 },
    Select { cond: SSAValue, if_true: SSAValue, if_false: SSAValue },
    Bitwise { op: BitwiseOp, lhs: SSAValue, rhs: SSAValue },
    BitwiseImm { op: BitwiseOp, lhs: SSAValue, rhs: u64 },
    BitNot(SSAValue),
    /// Shift with the amount reduced modulo the value's width.
    ///
    /// The shift amount is masked to `value_width - 1` before shifting
    /// (e.g., shifting a 32-bit value by 33 shifts by 1), matching what
    /// AArch64 register shifts and host ISAs do natively.
    Shift { op: ShiftOp, value: SSAValue, shift: SSAValue },
    /// Shift using unbounded language semantics.
    ///
    /// If the runtime shift amount is greater than or equal to the integer
    /// width:
    ///
    /// - `Shl` and `ZeroExtendShr` produce `0`.
    /// - `SignExtendShr` behaves as though shifted by `width - 1`,
    ///   broadcasting the sign bit across the result.
    ///
    /// Unlike `Shift`, the shift amount is **not** reduced modulo the
    /// integer width.
    ShiftUnbounded { op: ShiftOp, value: SSAValue, shift: SSAValue },
    /// Shift by a compile-time-known amount.
    ///
    /// Invariant: `shift` is always less than the width of `value`, so
    /// backends never see an out-of-range immediate.
    ShiftImm { op: ShiftOp, value: SSAValue, shift: u8 },
    /// Load from a host pointer plus a constant byte offset. If `can_move`
    /// is set, accessing the memory there is safe regardless of any
    /// condition.
    LoadHost { ty: LoadType, base_ptr: SSAValue, offset: usize, can_move: bool },
    /// Store to a host pointer plus a constant byte offset.
    StoreHost { base_ptr: SSAValue, offset: usize, value: SSAValue, can_move: bool },
    LoadStackPtr { slot: StackSlot },
    PtrAdd { base_ptr: SSAValue, offset: SSAValue, elem_size: usize },
    PtrEq(SSAValue, SSAValue),
    HasTag { ptr: SSAValue, tag_bits: u8 },
    Untag { ptr: SSAValue, tag_bits: u8 },
    HostCallback { func: HostCallback, signature: CallbackSignature, args: CallArgs },
    VMLoadRaw {
        aligned_page_ptr: SSAValue,
        page_offset: SSAValue,
        width: IntWidth,
        // the arm `LDAR` does not use acquire semantics, it uses seq_cst
        seq_cst: bool,
    },
    VMStoreRaw {
        aligned_page_ptr: SSAValue,
        page_offset: SSAValue,
        value: SSAValue,
        // the arm `STLR` does not use release semantics, it uses seq_cst
        seq_cst: bool,
    },
    /// Loads the halt reason found at [`Arg::HaltReasonPtr`], as a relaxed
    /// atomic 32-bit load. Only if there is one, synchronize: this keeps the
    /// fast path (no halt) fast.
    LoadHaltReason,
    /// Takes the halt reason found at [`Arg::HaltReasonPtr`] and replaces it
    /// with 0, by an acquire-release exchange.
    TakeHaltReason,
    /// Atomic release or of the dirty bit into the page's flags.
    SetPageDirtyFlag(SSAValue),
    Safepoint,
}

/// A statement: what it computes and the values that it binds.
pub struct StmtData {
    pub outputs: ArrayVec<u64, 2>,
    pub rvalue: StmtKind,
}

/// A branch edge: a target [`Block`] plus the values passed as its block
/// parameters.
pub struct Jump {
    pub parameters: InlineList,
    pub target: Block,
}

/// A branch edge as a mathematical value.
#[verifier::ext_equal]
pub struct JumpView {
    pub parameters: Seq<u64>,
    pub target: Block,
}

impl View for Jump {
    type V = JumpView;

    open spec fn view(&self) -> JumpView {
        JumpView { parameters: self.parameters@, target: self.target }
    }
}

impl Jump {
    /// An edge to `target` that passes `parameters`.
    pub fn with(target: Block, parameters: &[SSAValue]) -> (r: Jump)
        ensures
            r@.target == target,
            r@.parameters == Seq::new(parameters@.len(), |i: int| parameters@[i].index),
    {
        let mut list = InlineList::new();
        let mut i: usize = 0;
        while i < parameters.len()
            invariant
                i <= parameters.len(),
                list@ == Seq::new(i as nat, |k: int| parameters@[k].index),
            decreases parameters.len() - i,
        {
            list.push(parameters[i].index);
            i = i + 1;
            assert(list@ =~= Seq::new(i as nat, |k: int| parameters@[k].index));
        }
        assert(list@ =~= Seq::new(parameters@.len(), |k: int| parameters@[k].index));
        Jump { parameters: list, target }
    }

    /// An edge to `target` that passes nothing.
    pub fn to(target: Block) -> (r: Jump)
        ensures
            r@ == (JumpView { parameters: Seq::empty(), target }),
    {
        Jump { parameters: InlineList::new(), target }
    }
}

/// How a [`Block`] ends: a return or a branch, with its target [`Jump`]s.
pub enum Terminator {
    /// Return from the exec chunk with the success code `0`.
    Return,
    /// Return from the exec chunk with a halt reason, usually a non-zero
    /// `u32` block-exit reason. An exit code of zero is legal but is
    /// suboptimal.
    ReturnCode(SSAValue),
    /// Unconditional branch.
    Br(Jump),
    /// Conditional branch: to the first edge if the condition is zero/false,
    /// otherwise to the second. The condition must be a boolean or integer
    /// value.
    BrZ(SSAValue, Jump, Jump),
}

/// How a block ends, as a mathematical value.
#[verifier::ext_equal]
pub enum TerminatorView {
    Return,
    ReturnCode(SSAValue),
    Br(JumpView),
    BrZ(SSAValue, JumpView, JumpView),
}

impl View for Terminator {
    type V = TerminatorView;

    open spec fn view(&self) -> TerminatorView {
        match *self {
            Terminator::Return => TerminatorView::Return,
            Terminator::ReturnCode(value) => TerminatorView::ReturnCode(value),
            Terminator::Br(jump) => TerminatorView::Br(jump@),
            Terminator::BrZ(cond, zero, non_zero) => TerminatorView::BrZ(
                cond,
                zero@,
                non_zero@,
            ),
        }
    }
}

impl TerminatorView {
    /// The distinct blocks that the terminator can branch to, in order.
    pub open spec fn targets(self) -> Seq<u64> {
        match self {
            TerminatorView::Return => Seq::empty(),
            TerminatorView::ReturnCode(_) => Seq::empty(),
            TerminatorView::Br(jump) => seq![jump.target.index],
            TerminatorView::BrZ(_, zero, non_zero) => if zero.target == non_zero.target {
                seq![zero.target.index]
            } else {
                seq![zero.target.index, non_zero.target.index]
            },
        }
    }
}

impl Terminator {
    /// Conditional branch: to `non_zero` if `cond` is non-zero/true,
    /// otherwise to `zero`. `cond` must be a boolean or integer value.
    #[allow(non_snake_case)]
    pub fn BrNZ(cond: SSAValue, non_zero: Jump, zero: Jump) -> (r: Self)
        ensures
            r@ == TerminatorView::BrZ(cond, zero@, non_zero@),
    {
        Terminator::BrZ(cond, zero, non_zero)
    }

    /// The distinct blocks that the terminator can branch to, in order.
    pub fn block_targets(&self) -> (r: ArrayVec<u64, 2>)
        ensures
            pair_items(r) == self@.targets(),
    {
        let mut r: ArrayVec<u64, 2> = pair_new();
        match self {
            Terminator::Return => {},
            Terminator::ReturnCode(_) => {},
            Terminator::Br(jump) => {
                pair_push(&mut r, jump.target.index);
            },
            Terminator::BrZ(_, zero, non_zero) => {
                pair_push(&mut r, zero.target.index);
                if zero.target != non_zero.target {
                    pair_push(&mut r, non_zero.target.index);
                }
            },
        }
        assert(pair_items(r) =~= self@.targets());
        r
    }
}

/// A basic block.
pub struct BlockData {
    pub parameters: InlineList,
    pub stmts: Vec<Stmt>,
    pub terminated: bool,
    pub terminator: Terminator,
    pub is_cold: bool,
}

/// A basic block as a mathematical value.
#[verifier::ext_equal]
pub struct BlockView {
    pub parameters: Seq<u64>,
    pub stmts: Seq<Stmt>,
    pub terminated: bool,
    pub terminator: TerminatorView,
    pub is_cold: bool,
}

impl View for BlockData {
    type V = BlockView;

    open spec fn view(&self) -> BlockView {
        BlockView {
            parameters: self.parameters@,
            stmts: self.stmts@,
            terminated: self.terminated,
            terminator: self.terminator@,
            is_cold: self.is_cold,
        }
    }
}

impl BlockView {
    /// A block without anything in it.
    pub open spec fn blank() -> BlockView {
        BlockView {
            parameters: Seq::empty(),
            stmts: Seq::empty(),
            terminated: false,
            terminator: TerminatorView::Return,
            is_cold: false,
        }
    }
}

impl BlockData {
    pub fn empty() -> (r: Self)
        ensures
            r@ == BlockView::blank(),
    {
        let r = BlockData {
            parameters: InlineList::new(),
            stmts: Vec::new(),
            terminated: false,
            terminator: Terminator::Return,
            is_cold: false,
        };
        assert(r@ =~= BlockView::blank());
        r
    }
}

} // verus!
