//! Failure conditions of the decompiler.
//!
//! Every fallible step fails immediately with no partial output; offset
//! failures are wrapped with the calling stage's name as they propagate, so
//! a diagnostic chain is preserved.  Failure always means malformed input or
//! missing resolver coverage, never a transient condition.

use vstd::prelude::*;

use crate::cfg::NodeRef;

verus! {

/// A failure of byte-offset resolution.
#[derive(Debug, Clone, Copy, PartialEq, Eq)]
pub enum OffsetError {
    /// A byte offset lies beyond the total encoded length of the stream
    /// being walked.
    OutOfRange { byte_offset: u64, byte_length: u32 },
    /// A byte offset falls inside an instruction instead of on a boundary;
    /// `reached` is the first boundary past it.
    Misaligned { byte_offset: u32, reached: u32 },
    /// A negative relative offset jumps before the start of the stream.
    Underflow { base: u32, offset: i64 },
}

/// Which per-category symbol table a failed lookup was made against.
#[derive(Debug, Clone, Copy, PartialEq, Eq)]
pub enum SymbolTable {
    Functions,
    Variables,
    Objects,
    Sprites,
    Sounds,
    Rooms,
    Paths,
    Scripts,
    Fonts,
    Timelines,
    Shaders,
    Sequences,
    AnimCurves,
    ParticleSystems,
    Backgrounds,
}

/// The pipeline stage whose name wraps a propagated offset failure.
#[derive(Debug, Clone, Copy, PartialEq, Eq)]
pub enum Stage {
    /// Construction of the instruction-level control-flow graph.
    CfgConstruction,
    /// Simulation of a straight-line block.
    Resolution,
}

/// An error raised while decompiling one code entry.
#[derive(Debug, Clone, Copy, PartialEq, Eq)]
pub enum DecompileError {
    /// An offset-resolution failure, wrapped with the stage it propagated
    /// through.
    Offset { stage: Stage, error: OffsetError },
    /// A symbol-table lookup failed for the given index.
    UnresolvedSymbol { table: SymbolTable, id: i32 },
    /// The simulated operand stack was empty when the block needed a value.
    StackUnderflow { block: NodeRef },
    /// No resolver recognizes the construct at this instruction: an explicit
    /// not-yet-covered signal, distinct from a defect in the input.
    UnsupportedConstruct { block: NodeRef, index: usize },
    /// An intra-block jump lands outside the block's own range or does not
    /// move forward, which the partitioner should have made impossible.
    StructuralDefect { block: NodeRef, index: usize },
}

} // verus!
