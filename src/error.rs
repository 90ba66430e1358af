use vstd::prelude::*;

verus! {

/// Failures of the state shared between a node's subsystems.
#[derive(Debug, Clone, PartialEq, Eq)]
pub enum SharedError {
    InvalidInput,
    InvalidOutput,
    /// A transaction was rejected, with the reason.
    InvalidTransaction(String),
    InvalidParentBlock,
    /// The database failed, with its message.
    DB(String),
}

} // verus!
