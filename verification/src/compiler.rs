//! Which backend compiles a function, and what the backends call the things
//! of the IR.
use vstd::prelude::*;
use crate::ir::semantics::compare;
use crate::ir::types::{IntCmp, IntWidth, TypeFull};

verus! {

/// Which JIT backend (and optimization level) to compile with.
///
/// Lower tiers compile faster and run slower; higher tiers cost more compile
/// time for better code.
#[derive(Debug, Clone, Copy, Eq, PartialEq, Hash, Structural)]
pub enum CompileTier {
    /// Cranelift without optimizations: fastest compile time.
    Tier1,
    /// Cranelift with optimizations enabled.
    Tier2,
    /// The `libgccjit` backend.
    GccJit,
    /// The LLVM backend.
    LLVM,
}

/// A backend, and how hard it tries.
#[derive(Debug, Clone, Copy, Eq, PartialEq, Structural)]
pub enum Backend {
    Cranelift { optimized: bool },
    GccJit,
    Llvm,
}

impl CompileTier {
    pub open spec fn spec_backend(self) -> Backend {
        match self {
            CompileTier::Tier1 => Backend::Cranelift { optimized: false },
            CompileTier::Tier2 => Backend::Cranelift { optimized: true },
            CompileTier::GccJit => Backend::GccJit,
            CompileTier::LLVM => Backend::Llvm,
        }
    }

    /// The backend that a tier compiles with.
    pub fn backend(self) -> (r: Backend)
        ensures
            r == self.spec_backend(),
    {
        match self {
            CompileTier::Tier1 => Backend::Cranelift { optimized: false },
            CompileTier::Tier2 => Backend::Cranelift { optimized: true },
            CompileTier::GccJit => Backend::GccJit,
            CompileTier::LLVM => Backend::Llvm,
        }
    }
}

/// LLVM's integer predicates.
#[derive(Debug, Clone, Copy, Eq, PartialEq, Structural)]
pub enum LlvmPredicate {
    EQ,
    NE,
    UGT,
    UGE,
    ULT,
    ULE,
    SGT,
    SGE,
    SLT,
    SLE,
}

impl LlvmPredicate {
    /// Whether the predicate holds of two numbers of a width.
    pub open spec fn holds(self, width: IntWidth, a: u64, b: u64) -> bool {
        match self {
            LlvmPredicate::EQ => a == b,
            LlvmPredicate::NE => a != b,
            LlvmPredicate::UGT => a > b,
            LlvmPredicate::UGE => a >= b,
            LlvmPredicate::ULT => a < b,
            LlvmPredicate::ULE => a <= b,
            LlvmPredicate::SGT => width.signed(a) > width.signed(b),
            LlvmPredicate::SGE => width.signed(a) >= width.signed(b),
            LlvmPredicate::SLT => width.signed(a) < width.signed(b),
            LlvmPredicate::SLE => width.signed(a) <= width.signed(b),
        }
    }
}

/// LLVM's predicate for a comparison: it holds of the same numbers.
pub fn int_cmp_to_predicate(predicate: IntCmp) -> (r: LlvmPredicate)
    ensures
        forall|width: IntWidth, a: u64, b: u64| #[trigger]
            r.holds(width, a, b) == compare(predicate, width, a, b),
{
    match predicate {
        IntCmp::Equal => LlvmPredicate::EQ,
        IntCmp::NotEqual => LlvmPredicate::NE,
        IntCmp::SignedLessThan => LlvmPredicate::SLT,
        IntCmp::SignedLessThanOrEqual => LlvmPredicate::SLE,
        IntCmp::SignedGreaterThan => LlvmPredicate::SGT,
        IntCmp::SignedGreaterThanOrEqual => LlvmPredicate::SGE,
        IntCmp::UnsignedLessThan => LlvmPredicate::ULT,
        IntCmp::UnsignedLessThanOrEqual => LlvmPredicate::ULE,
        IntCmp::UnsignedGreaterThan => LlvmPredicate::UGT,
        IntCmp::UnsignedGreaterThanOrEqual => LlvmPredicate::UGE,
    }
}

/// LLVM's types for the values of the IR.
#[derive(Debug, Clone, Copy, Eq, PartialEq, Structural)]
pub enum LlvmType {
    /// An integer with this many bits.
    Int(u32),
    /// A pointer in the first address space.
    Pointer,
}

pub open spec fn spec_llvm_type(ty: TypeFull) -> LlvmType {
    match ty {
        TypeFull::Bool => LlvmType::Int(1),
        TypeFull::Int(width) => LlvmType::Int(width.spec_bits() as u32),
        TypeFull::HostPtr(_) => LlvmType::Pointer,
    }
}

/// LLVM's type for a value of the IR: a boolean is a single bit.
pub fn ir_type_to_llvm(ty: TypeFull) -> (r: LlvmType)
    ensures
        r == spec_llvm_type(ty),
{
    match ty {
        TypeFull::Bool => LlvmType::Int(1),
        TypeFull::Int(width) => LlvmType::Int(width.bits()),
        TypeFull::HostPtr(_) => LlvmType::Pointer,
    }
}

/// What stands before the first zero byte.
pub open spec fn before_nul(name: Seq<u8>) -> Seq<u8>
    decreases name.len(),
{
    if name.len() == 0 || name[0] == 0 {
        Seq::empty()
    } else {
        seq![name[0]] + before_nul(name.skip(1))
    }
}

/// A name that ends with its first zero byte, as a C string: what stands
/// before that byte, and the byte. A name without a zero byte gives the empty
/// string.
pub fn to_cstr(name: &[u8]) -> (r: Vec<u8>)
    ensures
        r@ == (if name@.contains(0) {
            before_nul(name@).push(0)
        } else {
            seq![0u8]
        }),
{
    let mut r: Vec<u8> = Vec::new();
    let mut i: usize = 0;
    assert(name@.skip(0) =~= name@);
    assert(Seq::<u8>::empty() + before_nul(name@) =~= before_nul(name@));
    while i < name.len() && name[i] != 0
        invariant
            i <= name.len(),
            r@ + before_nul(name@.skip(i as int)) == before_nul(name@),
            forall|k: int| 0 <= k < i ==> name@[k] != 0,
        decreases name.len() - i,
    {
        proof {
            let rest = name@.skip(i as int);
            assert(rest[0] == name@[i as int]);
            assert(rest.skip(1) =~= name@.skip(i as int + 1));
            assert(r@.push(name@[i as int]) + before_nul(name@.skip(i as int + 1)) =~= r@
                + before_nul(rest));
        }
        r.push(name[i]);
        i = i + 1;
    }
    if i == name.len() {
        assert(!name@.contains(0));
        return vec![0];
    }
    proof {
        assert(name@.skip(i as int)[0] == name@[i as int]);
        assert(r@ =~= before_nul(name@));
        assert(name@[i as int] == 0);
    }
    r.push(0);
    r
}

} // verus!
