//! Error taxonomy: validation-time errors and compile-time overflow errors.

use vstd::prelude::*;

verus! {

/// Errors raised while validating a stored message against the
/// caller-supplied account and lookup-table lists.
#[derive(Clone, Copy, Debug, PartialEq, Eq, Structural)]
pub enum ExecutorError {
    /// The supplied account or lookup-table list has the wrong cardinality.
    InvalidNumberOfAccounts,
    /// A supplied address disagrees with the stored message, or a lookup
    /// index falls outside the supplied table.
    InvalidAccount,
    /// The stored message itself is structurally malformed.
    InvalidTransactionMessage,
}

/// Errors raised while compiling a batch of instructions into a message.
#[derive(Clone, Copy, Debug, PartialEq, Eq, Structural)]
pub enum CompileError {
    /// An account bucket or the total address count does not fit the
    /// single-byte index range.
    AccountIndexOverflow,
    /// A lookup-table position does not fit a single byte.
    AddressTableLookupIndexOverflow,
    /// An instruction references an address that the compiled key set does
    /// not contain.
    UnknownInstructionKey,
}

} // verus!
