//! A transfer of an amount from one account (debited) to another (credited):
//! the 64-byte message a client sends, and the record the write-ahead log
//! holds.
//!
//! Layout (little endian): amount at 0..16, debit account at 16..24, credit
//! account at 24..32, checksum at 32..36, padding at 36..63, message kind at 63.

use vstd::bytes::*;
use vstd::prelude::*;

use crate::crc::spec_crc32;
use crate::layout::{checksum_input, push_slice, read_array, record_checksum, RECORD_SIZE};
use crate::{MessageKind, WeevilError};

verus! {

/// Offset of the checksum field inside a transfer record.
pub const TRANSFER_CHECKSUM_OFFSET: usize = 32;

#[derive(Debug, Default, Clone, Copy)]
pub struct Transfer {
    pub amount: u128,
    pub debit_account_id: u64,
    pub credit_account_id: u64,
    pub checksum: u32,
    pub _pad: [u8; 27],
    pub message_kind: u8,
}

impl Transfer {
    /// The 64 bytes of this transfer on the wire and in the log.
    pub open spec fn spec_to_bytes(self) -> Seq<u8> {
        spec_u128_to_le_bytes(self.amount) + spec_u64_to_le_bytes(self.debit_account_id)
            + spec_u64_to_le_bytes(self.credit_account_id) + spec_u32_to_le_bytes(self.checksum)
            + self._pad@ + seq![self.message_kind]
    }

    /// The checksum that a record with these bytes must carry.
    pub open spec fn spec_expected_checksum(self) -> u32 {
        spec_crc32(checksum_input(self.spec_to_bytes(), TRANSFER_CHECKSUM_OFFSET as int))
    }

    /// The stored checksum matches the record's bytes.
    pub open spec fn checksum_ok(self) -> bool {
        self.checksum == self.spec_expected_checksum()
    }

    pub proof fn lemma_len(self)
        ensures
            self.spec_to_bytes().len() == RECORD_SIZE,
            self._pad@.len() == 27,
    {
        lemma_auto_spec_u128_to_from_le_bytes();
        lemma_auto_spec_u64_to_from_le_bytes();
        lemma_auto_spec_u32_to_from_le_bytes();
    }

    /// Creates a transfer of `amount` from `debit_account_id` to
    /// `credit_account_id`, with zeroed padding and its checksum filled in.
    pub fn new(amount: u128, debit_account_id: u64, credit_account_id: u64) -> (t: Self)
        requires
            debit_account_id != credit_account_id,
        ensures
            t.amount == amount,
            t.debit_account_id == debit_account_id,
            t.credit_account_id == credit_account_id,
            t._pad@ == Seq::new(27, |i: int| 0u8),
            t.message_kind == MessageKind::Transfer.spec_byte(),
            t.checksum_ok(),
    {
        let mut t = Transfer {
            amount,
            debit_account_id,
            credit_account_id,
            checksum: 0,
            _pad: [0u8; 27],
            message_kind: MessageKind::Transfer.as_byte(),
        };
        let bytes = t.to_bytes();
        let checksum = record_checksum(bytes.as_slice(), TRANSFER_CHECKSUM_OFFSET);
        let ghost before = t;
        t.checksum = checksum;
        proof {
            before.lemma_len();
            t.lemma_len();
            lemma_auto_spec_u32_to_from_le_bytes();
            assert(checksum_input(t.spec_to_bytes(), 32) =~= checksum_input(before.spec_to_bytes(), 32));
            assert(t._pad@ =~= Seq::new(27, |i: int| 0u8));
        }
        t
    }

    /// The 64 bytes of this transfer.
    pub fn to_bytes(&self) -> (bytes: Vec<u8>)
        ensures
            bytes@ == self.spec_to_bytes(),
            bytes@.len() == RECORD_SIZE,
    {
        let mut bytes = u128_to_le_bytes(self.amount);
        let mut debit = u64_to_le_bytes(self.debit_account_id);
        let mut credit = u64_to_le_bytes(self.credit_account_id);
        let mut checksum = u32_to_le_bytes(self.checksum);
        bytes.append(&mut debit);
        bytes.append(&mut credit);
        bytes.append(&mut checksum);
        push_slice(&mut bytes, self._pad.as_slice());
        bytes.push(self.message_kind);
        proof {
            self.lemma_len();
        }
        bytes
    }

    /// Reads a transfer from its 64 bytes.
    pub fn from_bytes(bytes: &[u8]) -> (t: Self)
        requires
            bytes@.len() == RECORD_SIZE,
        ensures
            t.spec_to_bytes() == bytes@,
            t.amount == spec_u128_from_le_bytes(bytes@.subrange(0, 16)),
            t.debit_account_id == spec_u64_from_le_bytes(bytes@.subrange(16, 24)),
            t.credit_account_id == spec_u64_from_le_bytes(bytes@.subrange(24, 32)),
            t.checksum == spec_u32_from_le_bytes(bytes@.subrange(32, 36)),
    {
        let amount = u128_from_le_bytes(vstd::slice::slice_subrange(bytes, 0, 16));
        let debit_account_id = u64_from_le_bytes(vstd::slice::slice_subrange(bytes, 16, 24));
        let credit_account_id = u64_from_le_bytes(vstd::slice::slice_subrange(bytes, 24, 32));
        let checksum = u32_from_le_bytes(vstd::slice::slice_subrange(bytes, 32, 36));
        let pad: [u8; 27] = read_array(bytes, 36);
        let t = Transfer {
            amount,
            debit_account_id,
            credit_account_id,
            checksum,
            _pad: pad,
            message_kind: bytes[63],
        };
        proof {
            lemma_auto_spec_u128_to_from_le_bytes();
            lemma_auto_spec_u64_to_from_le_bytes();
            lemma_auto_spec_u32_to_from_le_bytes();
            let b = bytes@;
            assert(spec_u128_to_le_bytes(amount) == b.subrange(0, 16));
            assert(spec_u64_to_le_bytes(debit_account_id) == b.subrange(16, 24));
            assert(spec_u64_to_le_bytes(credit_account_id) == b.subrange(24, 32));
            assert(spec_u32_to_le_bytes(checksum) == b.subrange(32, 36));
            assert(t.spec_to_bytes() =~= b);
        }
        t
    }

    /// Checks the stored checksum against the record's bytes.
    pub fn verify(&self) -> (r: Result<(), WeevilError>)
        ensures
            r is Ok <==> self.checksum_ok(),
            r matches Err(e) ==> e is ChecksumFailed,
    {
        let bytes = self.to_bytes();
        let checksum = record_checksum(bytes.as_slice(), TRANSFER_CHECKSUM_OFFSET);
        if checksum == self.checksum {
            return Ok(());
        }
        Err(WeevilError::ChecksumFailed)
    }
}

/// Two transfers with the same bytes are the same transfer: reading back the
/// bytes of a transfer gives that transfer.
pub proof fn lemma_transfer_bytes_determine(a: Transfer, b: Transfer)
    requires
        a.spec_to_bytes() == b.spec_to_bytes(),
    ensures
        a == b,
{
    broadcast use vstd::array::group_array_axioms;

    lemma_auto_spec_u128_to_from_le_bytes();
    lemma_auto_spec_u64_to_from_le_bytes();
    lemma_auto_spec_u32_to_from_le_bytes();
    let sa = a.spec_to_bytes();
    let sb = b.spec_to_bytes();
    a.lemma_len();
    b.lemma_len();
    assert(sa.subrange(0, 16) =~= spec_u128_to_le_bytes(a.amount));
    assert(sb.subrange(0, 16) =~= spec_u128_to_le_bytes(b.amount));
    assert(sa.subrange(16, 24) =~= spec_u64_to_le_bytes(a.debit_account_id));
    assert(sb.subrange(16, 24) =~= spec_u64_to_le_bytes(b.debit_account_id));
    assert(sa.subrange(24, 32) =~= spec_u64_to_le_bytes(a.credit_account_id));
    assert(sb.subrange(24, 32) =~= spec_u64_to_le_bytes(b.credit_account_id));
    assert(sa.subrange(32, 36) =~= spec_u32_to_le_bytes(a.checksum));
    assert(sb.subrange(32, 36) =~= spec_u32_to_le_bytes(b.checksum));
    assert(sa.subrange(36, 63) =~= a._pad@);
    assert(sb.subrange(36, 63) =~= b._pad@);
    assert(a._pad =~= b._pad);
    assert(sa[63] == a.message_kind);
    assert(sb[63] == b.message_kind);
}

/// A transfer whose checksum holds is caught when one bit of its 64 bytes,
/// outside the checksum field, is flipped: the transfer those bytes read as
/// fails its checksum.
pub proof fn law_transfer_bit_flip_detected(t: Transfer, u: Transfer, i: int, j: u8)
    requires
        t.checksum_ok(),
        0 <= i < RECORD_SIZE,
        !(TRANSFER_CHECKSUM_OFFSET <= i < TRANSFER_CHECKSUM_OFFSET + 4),
        j < 8,
        u.spec_to_bytes() == t.spec_to_bytes().update(i, t.spec_to_bytes()[i] ^ (1u8 << j)),
    ensures
        !u.checksum_ok(),
{
    t.lemma_len();
    u.lemma_len();
    lemma_auto_spec_u128_to_from_le_bytes();
    lemma_auto_spec_u64_to_from_le_bytes();
    lemma_auto_spec_u32_to_from_le_bytes();
    let bt = t.spec_to_bytes();
    let bu = u.spec_to_bytes();
    assert(bt.subrange(32, 36) =~= spec_u32_to_le_bytes(t.checksum));
    assert(bu.subrange(32, 36) =~= spec_u32_to_le_bytes(u.checksum));
    assert(bu.subrange(32, 36) =~= bt.subrange(32, 36));
    assert(u.checksum == t.checksum);
    let ct = checksum_input(bt, 32);
    let cu = checksum_input(bu, 32);
    assert(cu =~= ct.update(i, ct[i] ^ (1u8 << j)));
    crate::crc::law_crc32_detects_single_bit_error(ct, i, j);
}

} // verus!
