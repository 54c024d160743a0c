use vstd::prelude::*;

use crate::ssa::{BlockId, Var};

verus! {

/// An internal-consistency failure of the lowering pipeline. Each aborts lowering
/// of the procedure.
#[derive(Clone, Copy, Debug, PartialEq, Eq, Structural)]
pub enum LowerError {
    /// The front end never created a block to put code in.
    NoUserBlock,
    /// A block does not end in exactly one jump or return (or is not marked complete).
    IncompleteBlock(BlockId),
    /// A jump names a block that does not exist.
    BadJumpTarget(BlockId),
    /// Something jumps to the entry block.
    EntryJumpedTo,
    /// A join block still has unresolved parameters, or lacks a needed binding.
    UnresolvedJoin(BlockId),
    /// The entry block needs a variable the procedure's arguments do not supply.
    MissingArgument(Var),
    /// Two unmerged sources reached one block for one variable.
    ConflictingSources(BlockId, Var),
    /// The procedure needs more registers than can be numbered.
    TooManyRegisters,
    /// A block lists a parameter twice.
    DuplicateParameter(BlockId),
    /// A block parameter survived to code generation.
    LeftoverParameter(BlockId),
}

} // verus!
