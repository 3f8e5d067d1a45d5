//! Errors of the streaming core.
use vstd::prelude::*;

verus! {

/// Why an operation of the streaming core failed.
#[derive(Clone, Copy, Debug, PartialEq, Eq, Structural)]
pub enum StreamError {
    /// The first message an actor received was not a barrier.
    FirstMessageNotBarrier,
    /// A barrier's epoch did not follow the previous one.
    EpochNotIncreasing { last: u64, prev: u64, curr: u64 },
    /// An `UpdateDelete` at this row is not paired with an `UpdateInsert`.
    SplitUpdatePair { row: usize },
    /// No channel, or no writer left, for the edge `(up, down)`.
    NoRoute { up: u32, down: u32 },
    /// A channel for the edge `(up, down)` is already registered.
    DuplicateRoute { up: u32, down: u32 },
    /// The downstream actor's host address is missing.
    MissingHost { actor: u32 },
    /// Two outputs of a broadcast dispatcher for the same actor.
    DuplicateOutput { actor: u32 },
    /// The removal would leave a dispatcher with no output.
    NoOutputLeft,
    /// A write batch was committed at an epoch not above the last commit.
    StaleEpoch { epoch: u64, last: u64 },
    /// An aggregate left the range of its type.
    Overflow,
    /// A column index outside the chunk.
    ColumnOutOfRange { index: usize },
    /// A column or value of another type than expected.
    TypeMismatch,
    /// Bytes that do not decode.
    Malformed,
    /// A source connector failed.
    Connector,
    /// A message could not be sent to the downstream actor.
    SendFailed { actor: u32 },
}

} // verus!
