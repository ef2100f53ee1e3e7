//! A single-sided transaction message: a debit or a credit of one account.
//!
//! Layout (little endian): amount at 0..16, account at 16..24, transaction
//! kind at 24, padding at 25..28, checksum at 28..32, padding at 32..63,
//! message kind at 63.

use vstd::bytes::*;
use vstd::prelude::*;

use crate::crc::{crc32, spec_crc32};
use crate::layout::{push_slice, read_array, RECORD_SIZE};
use crate::{MessageKind, WeevilError};

verus! {

/// Whether a transaction debits or credits its account.
#[derive(Debug, Clone, Copy, PartialEq, Eq, Structural)]
pub enum TransactionKind {
    Debit,
    Credit,
}

impl TransactionKind {
    /// The byte that encodes this kind.
    pub open spec fn spec_byte(self) -> u8 {
        match self {
            TransactionKind::Debit => 0,
            TransactionKind::Credit => 1,
        }
    }

    /// The byte that encodes this kind.
    pub fn as_byte(self) -> (b: u8)
        ensures
            b == self.spec_byte(),
    {
        match self {
            TransactionKind::Debit => 0,
            TransactionKind::Credit => 1,
        }
    }

    /// The name of this kind as it is shown to people.
    pub fn name(self) -> (s: &'static str)
        ensures
            s@ == (match self {
                TransactionKind::Debit => "DEBIT"@,
                TransactionKind::Credit => "CREDIT"@,
            }),
    {
        match self {
            TransactionKind::Debit => "DEBIT",
            TransactionKind::Credit => "CREDIT",
        }
    }
}

#[derive(Debug, Default, Clone, Copy)]
pub struct Transaction {
    pub amount: u128,
    pub account_id: u64,
    pub transaction_kind: u8,
    pub _pad: [u8; 3],
    pub checksum: u32,
    pub _pad2: [u8; 31],
    pub message_kind: u8,
}

impl Transaction {
    /// The 64 bytes of this transaction.
    pub open spec fn spec_to_bytes(self) -> Seq<u8> {
        spec_u128_to_le_bytes(self.amount) + spec_u64_to_le_bytes(self.account_id) + seq![
            self.transaction_kind,
        ] + self._pad@ + spec_u32_to_le_bytes(self.checksum) + self._pad2@ + seq![
            self.message_kind,
        ]
    }

    /// The checksum of this transaction: the CRC-32 of its bytes with the
    /// checksum field set to zero.
    pub open spec fn spec_expected_checksum(self) -> u32 {
        spec_crc32(Transaction { checksum: 0, ..self }.spec_to_bytes())
    }

    /// The stored checksum matches the transaction's bytes.
    pub open spec fn checksum_ok(self) -> bool {
        self.checksum == self.spec_expected_checksum()
    }

    /// The kind that the kind byte names, if it names one.
    pub open spec fn spec_kind(self) -> Option<TransactionKind> {
        if self.transaction_kind == 0 {
            Some(TransactionKind::Debit)
        } else if self.transaction_kind == 1 {
            Some(TransactionKind::Credit)
        } else {
            None
        }
    }

    pub proof fn lemma_len(self)
        ensures
            self.spec_to_bytes().len() == RECORD_SIZE,
    {
        lemma_auto_spec_u128_to_from_le_bytes();
        lemma_auto_spec_u64_to_from_le_bytes();
        lemma_auto_spec_u32_to_from_le_bytes();
    }

    /// Creates a transaction of `amount` on `account_id`, with zeroed padding
    /// and its checksum filled in.
    pub fn new(amount: u128, account_id: u64, transaction_kind: TransactionKind) -> (tx: Self)
        ensures
            tx.amount == amount,
            tx.account_id == account_id,
            tx.transaction_kind == transaction_kind.spec_byte(),
            tx._pad@ == Seq::new(3, |i: int| 0u8),
            tx._pad2@ == Seq::new(31, |i: int| 0u8),
            tx.message_kind == MessageKind::Transfer.spec_byte(),
            tx.checksum_ok(),
    {
        let mut tx = Transaction {
            amount,
            account_id,
            transaction_kind: transaction_kind.as_byte(),
            message_kind: MessageKind::Transfer.as_byte(),
            _pad: [0u8; 3],
            checksum: 0,
            _pad2: [0u8; 31],
        };
        let bytes = tx.to_bytes();
        let checksum = crc32(bytes.as_slice());
        tx.checksum = checksum;
        proof {
            assert(tx._pad@ =~= Seq::new(3, |i: int| 0u8));
            assert(tx._pad2@ =~= Seq::new(31, |i: int| 0u8));
        }
        tx
    }

    /// The 64 bytes of this transaction.
    pub fn to_bytes(&self) -> (bytes: Vec<u8>)
        ensures
            bytes@ == self.spec_to_bytes(),
            bytes@.len() == RECORD_SIZE,
    {
        let mut bytes = u128_to_le_bytes(self.amount);
        let mut id = u64_to_le_bytes(self.account_id);
        let mut checksum = u32_to_le_bytes(self.checksum);
        bytes.append(&mut id);
        bytes.push(self.transaction_kind);
        push_slice(&mut bytes, self._pad.as_slice());
        bytes.append(&mut checksum);
        push_slice(&mut bytes, self._pad2.as_slice());
        bytes.push(self.message_kind);
        proof {
            self.lemma_len();
        }
        bytes
    }

    /// Reads a transaction from its 64 bytes.
    pub fn from_bytes(bytes: &[u8]) -> (tx: Self)
        requires
            bytes@.len() == RECORD_SIZE,
        ensures
            tx.spec_to_bytes() == bytes@,
            tx.amount == spec_u128_from_le_bytes(bytes@.subrange(0, 16)),
            tx.account_id == spec_u64_from_le_bytes(bytes@.subrange(16, 24)),
            tx.transaction_kind == bytes@[24],
            tx.message_kind == bytes@[63],
    {
        let amount = u128_from_le_bytes(vstd::slice::slice_subrange(bytes, 0, 16));
        let account_id = u64_from_le_bytes(vstd::slice::slice_subrange(bytes, 16, 24));
        let pad: [u8; 3] = read_array(bytes, 25);
        let checksum = u32_from_le_bytes(vstd::slice::slice_subrange(bytes, 28, 32));
        let pad2: [u8; 31] = read_array(bytes, 32);
        let tx = Transaction {
            amount,
            account_id,
            transaction_kind: bytes[24],
            _pad: pad,
            checksum,
            _pad2: pad2,
            message_kind: bytes[63],
        };
        proof {
            lemma_auto_spec_u128_to_from_le_bytes();
            lemma_auto_spec_u64_to_from_le_bytes();
            lemma_auto_spec_u32_to_from_le_bytes();
            let b = bytes@;
            assert(spec_u128_to_le_bytes(amount) == b.subrange(0, 16));
            assert(spec_u64_to_le_bytes(account_id) == b.subrange(16, 24));
            assert(spec_u32_to_le_bytes(checksum) == b.subrange(28, 32));
            assert(tx.spec_to_bytes() =~= b);
        }
        tx
    }

    /// Reads the kind byte: 0 is a debit, 1 a credit; any other value is
    /// refused with that value.
    pub fn kind(&self) -> (r: Result<TransactionKind, WeevilError>)
        ensures
            r matches Ok(k) ==> self.spec_kind() == Some(k),
            r is Err <==> self.spec_kind() is None,
            r matches Err(e) ==> e == WeevilError::InvalidMessageKind(self.transaction_kind),
    {
        match self.transaction_kind {
            0 => Ok(TransactionKind::Debit),
            1 => Ok(TransactionKind::Credit),
            _ => Err(WeevilError::InvalidMessageKind(self.transaction_kind)),
        }
    }

    /// Checks the stored checksum: the CRC-32 of a copy whose checksum field
    /// is zero must equal it.
    pub fn verify(&self) -> (r: Result<(), WeevilError>)
        ensures
            r is Ok <==> self.checksum_ok(),
            r matches Err(e) ==> e is ChecksumFailed,
    {
        let mut copy = *self;
        let old_checksum = copy.checksum;
        copy.checksum = 0;
        let bytes = copy.to_bytes();
        let checksum = crc32(bytes.as_slice());
        if checksum == old_checksum {
            return Ok(());
        }
        Err(WeevilError::ChecksumFailed)
    }
}

/// Two transactions with the same bytes are the same transaction.
pub proof fn lemma_transaction_bytes_determine(a: Transaction, b: Transaction)
    requires
        a.spec_to_bytes() == b.spec_to_bytes(),
    ensures
        a == b,
{
    broadcast use vstd::array::group_array_axioms;

    lemma_auto_spec_u128_to_from_le_bytes();
    lemma_auto_spec_u64_to_from_le_bytes();
    lemma_auto_spec_u32_to_from_le_bytes();
    let sa = a.spec_to_bytes();
    let sb = b.spec_to_bytes();
    a.lemma_len();
    b.lemma_len();
    assert(sa.subrange(0, 16) =~= spec_u128_to_le_bytes(a.amount));
    assert(sb.subrange(0, 16) =~= spec_u128_to_le_bytes(b.amount));
    assert(sa.subrange(16, 24) =~= spec_u64_to_le_bytes(a.account_id));
    assert(sb.subrange(16, 24) =~= spec_u64_to_le_bytes(b.account_id));
    assert(sa[24] == a.transaction_kind);
    assert(sb[24] == b.transaction_kind);
    assert(sa.subrange(25, 28) =~= a._pad@);
    assert(sb.subrange(25, 28) =~= b._pad@);
    assert(sa.subrange(28, 32) =~= spec_u32_to_le_bytes(a.checksum));
    assert(sb.subrange(28, 32) =~= spec_u32_to_le_bytes(b.checksum));
    assert(sa.subrange(32, 63) =~= a._pad2@);
    assert(sb.subrange(32, 63) =~= b._pad2@);
    assert(a._pad =~= b._pad);
    assert(a._pad2 =~= b._pad2);
    assert(sa[63] == a.message_kind);
    assert(sb[63] == b.message_kind);
}

} // verus!
