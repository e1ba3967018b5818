use vstd::prelude::*;

verus! {

/// The error kinds that engine operations surface to the caller.
#[derive(Debug, Clone, Copy, PartialEq, Eq, Structural)]
pub enum CommandError {
    /// Operand series have different lengths.
    ShapeMismatch,
    /// An elementwise arithmetic step could not produce a representable result.
    ComputationFailure,
    /// A required input column was never supplied by the ingestion layer.
    MissingColumn,
}

/// Success-or-error result of every engine operation.
pub type CommandResult<T> = Result<T, CommandError>;

} // verus!
