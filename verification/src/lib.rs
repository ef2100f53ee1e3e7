//! Core types of a small double-entry ledger server: fixed 64-byte wire and
//! log records protected by CRC-32 checksums, and an open-addressing cache of
//! account balances fed by batches of transfers.

use vstd::prelude::*;

pub mod account;
pub mod account_cache;
pub mod crc;
pub mod durability;
pub mod error;
pub mod layout;
pub mod server;
pub mod transaction;
pub mod transfer;

pub use crate::crc::{crc32, crc32_chained};
pub use crate::error::WeevilError;

verus! {

/// Maximum number of connections the server will accept.
pub const MAX_CONNECTIONS: usize = 256;

/// Number of account slots in the cache (a prime, to spread probe sequences).
pub const MAX_ACCOUNTS: usize = 257;

/// Size of the write-ahead log above which a checkpoint is taken.
pub const MAX_WAL_SIZE: u64 = 1048576;

/// Number of transfers held in memory before they must be flushed.
pub const MAX_BATCH: usize = 1000;

/// The discriminating byte found at the last byte of a wire message; it
/// decides how the preceding 63 bytes are read.
#[derive(Debug, Clone, Copy, PartialEq, Eq, Structural)]
pub enum MessageKind {
    Account,
    Transfer,
}

impl MessageKind {
    /// The byte that marks a message of this kind on the wire.
    pub open spec fn spec_byte(self) -> u8 {
        match self {
            MessageKind::Account => 0,
            MessageKind::Transfer => 1,
        }
    }

    /// The byte that marks a message of this kind on the wire.
    pub fn as_byte(self) -> (b: u8)
        ensures
            b == self.spec_byte(),
    {
        match self {
            MessageKind::Account => 0,
            MessageKind::Transfer => 1,
        }
    }
}

} // verus!
