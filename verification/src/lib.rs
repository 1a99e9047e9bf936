//! A C-style source-generation backend for a typed, SSA-based parallel-compute
//! intermediate representation: it lowers type descriptors into deduplicated
//! struct declarations and lowers per-function instruction graphs into body
//! text, with verified contracts over the generated text.

use vstd::prelude::*;

pub mod emit;
pub mod ir;
pub mod phi;
pub mod text;
pub mod types;

verus! {

/// The fatal error taxonomy. Every error signals an upstream IR contract
/// violation; the driver aborts whole-unit generation on any of them.
#[derive(Clone, Copy, Debug, PartialEq, Eq, Structural)]
pub enum CodegenError {
    /// A scalar, vector, or matrix element kind outside the supported set.
    UnsupportedKind,
    /// A descriptor matching none of scalar, vector, matrix, array, struct.
    UnrecognizedType,
    /// A trailing index after a vector or matrix subscript, a non-constant
    /// struct field ordinal, or an index into a non-indexable type.
    MalformedAccessChain,
    /// A control instruction referencing a missing or ill-placed nested block.
    InconsistentControlFlow,
}

} // verus!
