//! The library's error type.

use vstd::prelude::*;

verus! {

/// An I/O failure from the standard library, carried through unchanged.
#[verifier::external_type_specification]
#[verifier::external_body]
pub struct ExIoError(std::io::Error);

/// Everything that can go wrong in the ledger.
#[derive(Debug)]
pub enum WeevilError {
    /// Reading or writing a file or socket failed.
    Io(std::io::Error),
    /// A kind byte held a value that names no known kind.
    InvalidMessageKind(u8),
    /// The batch of pending transfers is full until the next flush.
    PendingTransactionsFull,
    /// A record's stored checksum does not match its bytes.
    ChecksumFailed,
    /// A transfer names the same account on both sides.
    SelfTransfer(u64),
    /// A transfer was applied to an account that is neither its debit nor
    /// its credit side (debit account id, credit account id).
    InvalidAccountId(u64, u64),
}

} // verus!
