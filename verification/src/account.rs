//! Accounts: the registration message a client sends, the in-memory balance
//! entry, the response the server answers with, and the checkpoint record
//! that stores a balance on disk. All records are 64 bytes, little endian.

use vstd::bytes::*;
use vstd::prelude::*;

use crate::crc::spec_crc32;
use crate::layout::{checksum_input, push_slice, read_array, record_checksum, RECORD_SIZE};
use crate::transfer::Transfer;
use crate::{MessageKind, WeevilError};

verus! {

/// Offset of the checksum inside an account message.
pub const ACCOUNT_CHECKSUM_OFFSET: usize = 8;

/// Offset of the checksum inside an account response.
pub const RESPONSE_CHECKSUM_OFFSET: usize = 40;

/// Offset of the checksum inside a checkpoint record.
pub const CHECKPOINT_CHECKSUM_OFFSET: usize = 40;

/// Response status: the request succeeded.
pub const STATUS_SUCCESS: u8 = 0;

/// Response status: the account is not known.
pub const STATUS_NOT_FOUND: u8 = 1;

/// Response status: the account cache has no room left.
pub const STATUS_CACHE_FULL: u8 = 2;

proof fn lemma_le_lengths()
    ensures
        forall|x: u128| #[trigger] spec_u128_to_le_bytes(x).len() == 16,
        forall|x: u64| #[trigger] spec_u64_to_le_bytes(x).len() == 8,
        forall|x: u32| #[trigger] spec_u32_to_le_bytes(x).len() == 4,
{
    lemma_auto_spec_u128_to_from_le_bytes();
    lemma_auto_spec_u64_to_from_le_bytes();
    lemma_auto_spec_u32_to_from_le_bytes();
}

// ---------------------------------------------------------------------------
// Account registration message.
// Layout: account id at 0..8, checksum at 8..12, padding at 12..43 and
// 43..63, message kind at 63.
// ---------------------------------------------------------------------------

#[derive(Debug, Clone, Copy)]
pub struct Account {
    pub account_id: u64,
    pub checksum: u32,
    pub _pad: [u8; 31],
    pub _pad2: [u8; 20],
    pub message_kind: u8,
}

impl Account {
    /// The 64 bytes of this message.
    pub open spec fn spec_to_bytes(self) -> Seq<u8> {
        spec_u64_to_le_bytes(self.account_id) + spec_u32_to_le_bytes(self.checksum) + self._pad@
            + self._pad2@ + seq![self.message_kind]
    }

    /// The checksum that a message with these bytes must carry.
    pub open spec fn spec_expected_checksum(self) -> u32 {
        spec_crc32(checksum_input(self.spec_to_bytes(), ACCOUNT_CHECKSUM_OFFSET as int))
    }

    /// The stored checksum matches the message's bytes.
    pub open spec fn checksum_ok(self) -> bool {
        self.checksum == self.spec_expected_checksum()
    }

    pub proof fn lemma_len(self)
        ensures
            self.spec_to_bytes().len() == RECORD_SIZE,
    {
        lemma_le_lengths();
    }

    /// Creates the registration message of `account_id`, with zeroed padding
    /// and its checksum filled in.
    pub fn new(account_id: u64) -> (a: Self)
        ensures
            a.account_id == account_id,
            a._pad@ == Seq::new(31, |i: int| 0u8),
            a._pad2@ == Seq::new(20, |i: int| 0u8),
            a.message_kind == MessageKind::Account.spec_byte(),
            a.checksum_ok(),
    {
        let mut a = Account {
            account_id,
            checksum: 0,
            _pad: [0u8; 31],
            _pad2: [0u8; 20],
            message_kind: MessageKind::Account.as_byte(),
        };
        let bytes = a.to_bytes();
        let checksum = record_checksum(bytes.as_slice(), ACCOUNT_CHECKSUM_OFFSET);
        let ghost before = a;
        a.checksum = checksum;
        proof {
            before.lemma_len();
            a.lemma_len();
            lemma_auto_spec_u64_to_from_le_bytes();
            lemma_auto_spec_u32_to_from_le_bytes();
            assert(checksum_input(a.spec_to_bytes(), 8) =~= checksum_input(before.spec_to_bytes(), 8));
            assert(a._pad@ =~= Seq::new(31, |i: int| 0u8));
            assert(a._pad2@ =~= Seq::new(20, |i: int| 0u8));
        }
        a
    }

    /// The 64 bytes of this message.
    pub fn to_bytes(&self) -> (bytes: Vec<u8>)
        ensures
            bytes@ == self.spec_to_bytes(),
            bytes@.len() == RECORD_SIZE,
    {
        let mut bytes = u64_to_le_bytes(self.account_id);
        let mut checksum = u32_to_le_bytes(self.checksum);
        bytes.append(&mut checksum);
        push_slice(&mut bytes, self._pad.as_slice());
        push_slice(&mut bytes, self._pad2.as_slice());
        bytes.push(self.message_kind);
        proof {
            self.lemma_len();
        }
        bytes
    }

    /// Reads a message from its 64 bytes.
    pub fn from_bytes(bytes: &[u8]) -> (a: Self)
        requires
            bytes@.len() == RECORD_SIZE,
        ensures
            a.spec_to_bytes() == bytes@,
            a.account_id == spec_u64_from_le_bytes(bytes@.subrange(0, 8)),
            a.checksum == spec_u32_from_le_bytes(bytes@.subrange(8, 12)),
            a.message_kind == bytes@[63],
    {
        let account_id = u64_from_le_bytes(vstd::slice::slice_subrange(bytes, 0, 8));
        let checksum = u32_from_le_bytes(vstd::slice::slice_subrange(bytes, 8, 12));
        let pad: [u8; 31] = read_array(bytes, 12);
        let pad2: [u8; 20] = read_array(bytes, 43);
        let a = Account { account_id, checksum, _pad: pad, _pad2: pad2, message_kind: bytes[63] };
        proof {
            lemma_auto_spec_u64_to_from_le_bytes();
            lemma_auto_spec_u32_to_from_le_bytes();
            let b = bytes@;
            assert(spec_u64_to_le_bytes(account_id) == b.subrange(0, 8));
            assert(spec_u32_to_le_bytes(checksum) == b.subrange(8, 12));
            assert(a.spec_to_bytes() =~= b);
        }
        a
    }

    /// Checks the stored checksum against the message's bytes.
    pub fn verify(&self) -> (r: Result<(), WeevilError>)
        ensures
            r is Ok <==> self.checksum_ok(),
            r matches Err(e) ==> e is ChecksumFailed,
    {
        let bytes = self.to_bytes();
        let checksum = record_checksum(bytes.as_slice(), ACCOUNT_CHECKSUM_OFFSET);
        if checksum == self.checksum {
            return Ok(());
        }
        Err(WeevilError::ChecksumFailed)
    }
}

/// Two account messages with the same bytes are the same message.
pub proof fn lemma_account_bytes_determine(a: Account, b: Account)
    requires
        a.spec_to_bytes() == b.spec_to_bytes(),
    ensures
        a == b,
{
    broadcast use vstd::array::group_array_axioms;

    lemma_auto_spec_u64_to_from_le_bytes();
    lemma_auto_spec_u32_to_from_le_bytes();
    let sa = a.spec_to_bytes();
    let sb = b.spec_to_bytes();
    a.lemma_len();
    b.lemma_len();
    assert(sa.subrange(0, 8) =~= spec_u64_to_le_bytes(a.account_id));
    assert(sb.subrange(0, 8) =~= spec_u64_to_le_bytes(b.account_id));
    assert(sa.subrange(8, 12) =~= spec_u32_to_le_bytes(a.checksum));
    assert(sb.subrange(8, 12) =~= spec_u32_to_le_bytes(b.checksum));
    assert(sa.subrange(12, 43) =~= a._pad@);
    assert(sb.subrange(12, 43) =~= b._pad@);
    assert(sa.subrange(43, 63) =~= a._pad2@);
    assert(sb.subrange(43, 63) =~= b._pad2@);
    assert(a._pad =~= b._pad);
    assert(a._pad2 =~= b._pad2);
    assert(sa[63] == a.message_kind);
    assert(sb[63] == b.message_kind);
}

// ---------------------------------------------------------------------------
// Balance entry.
// ---------------------------------------------------------------------------

/// The committed balances of one account, kept as two unsigned accumulators.
#[derive(Debug, Clone, Copy)]
pub struct AccountEntry {
    pub account_id: u64,
    pub debit_balance: u128,
    pub credit_balance: u128,
}

/// Which side of an account is larger, and by how much.
#[derive(Debug, Clone, Copy, PartialEq, Eq, Structural)]
pub enum NetBalance {
    /// Debits exceed credits by this amount.
    Debit(u128),
    /// Credits exceed or equal debits by this amount.
    Credit(u128),
}

/// The net balance of the two accumulators.
pub open spec fn spec_net_balance(debit: u128, credit: u128) -> NetBalance {
    if debit > credit {
        NetBalance::Debit((debit - credit) as u128)
    } else {
        NetBalance::Credit((credit - debit) as u128)
    }
}

fn net_balance(debit: u128, credit: u128) -> (n: NetBalance)
    ensures
        n == spec_net_balance(debit, credit),
{
    if debit > credit {
        NetBalance::Debit(debit - credit)
    } else {
        NetBalance::Credit(credit - debit)
    }
}

impl AccountEntry {
    /// Whether `tx` can be applied to this entry without a balance passing
    /// the largest `u128`.
    pub open spec fn apply_fits(self, tx: Transfer) -> bool {
        if self.account_id == tx.debit_account_id {
            self.debit_balance + tx.amount <= u128::MAX
        } else if self.account_id == tx.credit_account_id {
            self.credit_balance + tx.amount <= u128::MAX
        } else {
            true
        }
    }

    /// The entry after applying `tx`: the debit side grows when this is the
    /// debit account, otherwise the credit side grows when this is the credit
    /// account; an unrelated transfer leaves the entry as it is.
    pub open spec fn spec_apply(self, tx: Transfer) -> AccountEntry {
        if self.account_id == tx.debit_account_id {
            AccountEntry { debit_balance: (self.debit_balance + tx.amount) as u128, ..self }
        } else if self.account_id == tx.credit_account_id {
            AccountEntry { credit_balance: (self.credit_balance + tx.amount) as u128, ..self }
        } else {
            self
        }
    }

    pub fn new(account_id: u64, debit_balance: u128, credit_balance: u128) -> (e: Self)
        ensures
            e == (AccountEntry { account_id, debit_balance, credit_balance }),
    {
        AccountEntry { account_id, debit_balance, credit_balance }
    }

    /// Applies `tx` to this account's balances. A transfer whose debit and
    /// credit accounts are both other accounts is refused.
    pub fn apply_transaction(&mut self, tx: &Transfer) -> (r: Result<(), WeevilError>)
        requires
            old(self).apply_fits(*tx),
        ensures
            *final(self) == old(self).spec_apply(*tx),
            r is Ok <==> (old(self).account_id == tx.debit_account_id || old(self).account_id
                == tx.credit_account_id),
            r matches Err(e) ==> e == WeevilError::InvalidAccountId(
                tx.debit_account_id,
                tx.credit_account_id,
            ),
    {
        if self.account_id == tx.debit_account_id {
            self.debit_balance = self.debit_balance + tx.amount;
        } else if self.account_id == tx.credit_account_id {
            self.credit_balance = self.credit_balance + tx.amount;
        } else {
            return Err(WeevilError::InvalidAccountId(tx.debit_account_id, tx.credit_account_id));
        }
        Ok(())
    }

    /// The response that reports this account's committed balances, with
    /// status success and its checksum filled in.
    pub fn response(&self) -> (r: AccountResponse)
        ensures
            r.debit_balance == self.debit_balance,
            r.credit_balance == self.credit_balance,
            r.account_id == self.account_id,
            r._pad@ == Seq::new(19, |i: int| 0u8),
            r.status == STATUS_SUCCESS,
            r.checksum_ok(),
    {
        let mut ar = AccountResponse {
            debit_balance: self.debit_balance,
            credit_balance: self.credit_balance,
            account_id: self.account_id,
            checksum: 0,
            _pad: [0u8; 19],
            status: STATUS_SUCCESS,
        };
        let bytes = ar.to_bytes();
        let checksum = record_checksum(bytes.as_slice(), RESPONSE_CHECKSUM_OFFSET);
        let ghost before = ar;
        ar.checksum = checksum;
        proof {
            before.lemma_len();
            ar.lemma_len();
            lemma_auto_spec_u128_to_from_le_bytes();
            lemma_auto_spec_u64_to_from_le_bytes();
            lemma_auto_spec_u32_to_from_le_bytes();
            assert(checksum_input(ar.spec_to_bytes(), 40) =~= checksum_input(before.spec_to_bytes(), 40));
            assert(ar._pad@ =~= Seq::new(19, |i: int| 0u8));
        }
        ar
    }

    /// Which side of the account is larger, and by how much.
    pub fn net_balance(&self) -> (n: NetBalance)
        ensures
            n == spec_net_balance(self.debit_balance, self.credit_balance),
    {
        net_balance(self.debit_balance, self.credit_balance)
    }
}

// ---------------------------------------------------------------------------
// Account response.
// Layout: debit balance at 0..16, credit balance at 16..32, account id at
// 32..40, checksum at 40..44, padding at 44..63, status at 63.
// ---------------------------------------------------------------------------

#[derive(Debug, Clone, Copy, PartialEq, Eq)]
pub struct AccountResponse {
    pub debit_balance: u128,
    pub credit_balance: u128,
    pub account_id: u64,
    pub checksum: u32,
    pub _pad: [u8; 19],
    pub status: u8,
}

/// What a response says.
#[derive(Debug, Clone, Copy, PartialEq, Eq, Structural)]
pub enum ResponseSummary {
    /// The account is not known.
    NotFound,
    /// The server's account cache is full.
    CacheFull,
    /// The balance of the account with this id.
    Balance(u64, NetBalance),
}

impl AccountResponse {
    /// The 64 bytes of this response.
    pub open spec fn spec_to_bytes(self) -> Seq<u8> {
        spec_u128_to_le_bytes(self.debit_balance) + spec_u128_to_le_bytes(self.credit_balance)
            + spec_u64_to_le_bytes(self.account_id) + spec_u32_to_le_bytes(self.checksum)
            + self._pad@ + seq![self.status]
    }

    /// The checksum that a response with these bytes must carry.
    pub open spec fn spec_expected_checksum(self) -> u32 {
        spec_crc32(checksum_input(self.spec_to_bytes(), RESPONSE_CHECKSUM_OFFSET as int))
    }

    /// The stored checksum matches the response's bytes.
    pub open spec fn checksum_ok(self) -> bool {
        self.checksum == self.spec_expected_checksum()
    }

    /// What the response says, by its status byte.
    pub open spec fn spec_summary(self) -> ResponseSummary {
        if self.status == STATUS_NOT_FOUND {
            ResponseSummary::NotFound
        } else if self.status == STATUS_CACHE_FULL {
            ResponseSummary::CacheFull
        } else {
            ResponseSummary::Balance(
                self.account_id,
                spec_net_balance(self.debit_balance, self.credit_balance),
            )
        }
    }

    pub proof fn lemma_len(self)
        ensures
            self.spec_to_bytes().len() == RECORD_SIZE,
    {
        lemma_le_lengths();
    }

    /// The 64 bytes of this response.
    pub fn to_bytes(&self) -> (bytes: Vec<u8>)
        ensures
            bytes@ == self.spec_to_bytes(),
            bytes@.len() == RECORD_SIZE,
    {
        let mut bytes = u128_to_le_bytes(self.debit_balance);
        let mut credit = u128_to_le_bytes(self.credit_balance);
        let mut id = u64_to_le_bytes(self.account_id);
        let mut checksum = u32_to_le_bytes(self.checksum);
        bytes.append(&mut credit);
        bytes.append(&mut id);
        bytes.append(&mut checksum);
        push_slice(&mut bytes, self._pad.as_slice());
        bytes.push(self.status);
        proof {
            self.lemma_len();
        }
        bytes
    }

    /// Reads a response from its 64 bytes.
    pub fn from_bytes(bytes: &[u8]) -> (r: Self)
        requires
            bytes@.len() == RECORD_SIZE,
        ensures
            r.spec_to_bytes() == bytes@,
    {
        let debit_balance = u128_from_le_bytes(vstd::slice::slice_subrange(bytes, 0, 16));
        let credit_balance = u128_from_le_bytes(vstd::slice::slice_subrange(bytes, 16, 32));
        let account_id = u64_from_le_bytes(vstd::slice::slice_subrange(bytes, 32, 40));
        let checksum = u32_from_le_bytes(vstd::slice::slice_subrange(bytes, 40, 44));
        let pad: [u8; 19] = read_array(bytes, 44);
        let r = AccountResponse {
            debit_balance,
            credit_balance,
            account_id,
            checksum,
            _pad: pad,
            status: bytes[63],
        };
        proof {
            lemma_auto_spec_u128_to_from_le_bytes();
            lemma_auto_spec_u64_to_from_le_bytes();
            lemma_auto_spec_u32_to_from_le_bytes();
            let b = bytes@;
            assert(spec_u128_to_le_bytes(debit_balance) == b.subrange(0, 16));
            assert(spec_u128_to_le_bytes(credit_balance) == b.subrange(16, 32));
            assert(spec_u64_to_le_bytes(account_id) == b.subrange(32, 40));
            assert(spec_u32_to_le_bytes(checksum) == b.subrange(40, 44));
            assert(r.spec_to_bytes() =~= b);
        }
        r
    }

    /// Checks the stored checksum against the response's bytes.
    pub fn verify(&self) -> (r: Result<(), WeevilError>)
        ensures
            r is Ok <==> self.checksum_ok(),
            r matches Err(e) ==> e is ChecksumFailed,
    {
        let bytes = self.to_bytes();
        let checksum = record_checksum(bytes.as_slice(), RESPONSE_CHECKSUM_OFFSET);
        if checksum == self.checksum {
            return Ok(());
        }
        Err(WeevilError::ChecksumFailed)
    }

    /// The response for an account that is not known.
    pub open spec fn spec_not_found() -> AccountResponse {
        AccountResponse {
            debit_balance: 0,
            credit_balance: 0,
            account_id: 0,
            checksum: 0x028A53A0,
            _pad: vstd::array::spec_array_fill_for_copy_type::<u8, 19>(0u8),
            status: STATUS_NOT_FOUND,
        }
    }

    /// The response when the account cache has no room for a new account.
    pub open spec fn spec_cache_full() -> AccountResponse {
        AccountResponse {
            debit_balance: 0,
            credit_balance: 0,
            account_id: 0,
            checksum: 0x9B83021A,
            _pad: vstd::array::spec_array_fill_for_copy_type::<u8, 19>(0u8),
            status: STATUS_CACHE_FULL,
        }
    }

    /// The response for an account that is not known: zero balances and
    /// account id, status not found, and the checksum of those bytes.
    pub fn not_found() -> (r: Self)
        ensures
            r == Self::spec_not_found(),
            r.debit_balance == 0,
            r.credit_balance == 0,
            r.account_id == 0,
            r.checksum == 0x028A53A0,
            r._pad@ == Seq::new(19, |i: int| 0u8),
            r.status == STATUS_NOT_FOUND,
    {
        let r = AccountResponse {
            debit_balance: 0,
            credit_balance: 0,
            account_id: 0,
            checksum: 0x028A53A0,
            _pad: [0u8; 19],
            status: STATUS_NOT_FOUND,
        };
        assert(r._pad@ =~= Seq::new(19, |i: int| 0u8));
        r
    }

    /// The response when the account cache has no room for a new account:
    /// zero balances and account id, status cache full, and the checksum of
    /// those bytes.
    pub fn cache_full() -> (r: Self)
        ensures
            r == Self::spec_cache_full(),
            r.debit_balance == 0,
            r.credit_balance == 0,
            r.account_id == 0,
            r.checksum == 0x9B83021A,
            r._pad@ == Seq::new(19, |i: int| 0u8),
            r.status == STATUS_CACHE_FULL,
    {
        let r = AccountResponse {
            debit_balance: 0,
            credit_balance: 0,
            account_id: 0,
            checksum: 0x9B83021A,
            _pad: [0u8; 19],
            status: STATUS_CACHE_FULL,
        };
        assert(r._pad@ =~= Seq::new(19, |i: int| 0u8));
        r
    }

    /// What the response says: not found, cache full, or a balance.
    pub fn summary(&self) -> (s: ResponseSummary)
        ensures
            s == self.spec_summary(),
    {
        if self.status == STATUS_NOT_FOUND {
            ResponseSummary::NotFound
        } else if self.status == STATUS_CACHE_FULL {
            ResponseSummary::CacheFull
        } else {
            ResponseSummary::Balance(
                self.account_id,
                net_balance(self.debit_balance, self.credit_balance),
            )
        }
    }
}

/// Two responses with the same bytes are the same response.
pub proof fn lemma_response_bytes_determine(a: AccountResponse, b: AccountResponse)
    requires
        a.spec_to_bytes() == b.spec_to_bytes(),
    ensures
        a == b,
{
    broadcast use vstd::array::group_array_axioms;

    lemma_auto_spec_u128_to_from_le_bytes();
    lemma_auto_spec_u64_to_from_le_bytes();
    lemma_auto_spec_u32_to_from_le_bytes();
    let sa = a.spec_to_bytes();
    let sb = b.spec_to_bytes();
    a.lemma_len();
    b.lemma_len();
    assert(sa.subrange(0, 16) =~= spec_u128_to_le_bytes(a.debit_balance));
    assert(sb.subrange(0, 16) =~= spec_u128_to_le_bytes(b.debit_balance));
    assert(sa.subrange(16, 32) =~= spec_u128_to_le_bytes(a.credit_balance));
    assert(sb.subrange(16, 32) =~= spec_u128_to_le_bytes(b.credit_balance));
    assert(sa.subrange(32, 40) =~= spec_u64_to_le_bytes(a.account_id));
    assert(sb.subrange(32, 40) =~= spec_u64_to_le_bytes(b.account_id));
    assert(sa.subrange(40, 44) =~= spec_u32_to_le_bytes(a.checksum));
    assert(sb.subrange(40, 44) =~= spec_u32_to_le_bytes(b.checksum));
    assert(sa.subrange(44, 63) =~= a._pad@);
    assert(sb.subrange(44, 63) =~= b._pad@);
    assert(a._pad =~= b._pad);
    assert(sa[63] == a.status);
    assert(sb[63] == b.status);
}


// ---------------------------------------------------------------------------
// Checkpoint record.
// Layout: debit balance at 0..16, credit balance at 16..32, account id at
// 32..40, checksum at 40..44, padding at 44..64.
// ---------------------------------------------------------------------------

/// One account's balances as the checkpoint file stores them.
#[derive(Debug, Clone, Copy)]
pub struct CheckpointRecord {
    pub debit_balance: u128,
    pub credit_balance: u128,
    pub account_id: u64,
    pub checksum: u32,
    pub _pad: [u8; 20],
}

impl CheckpointRecord {
    /// The 64 bytes of this record.
    pub open spec fn spec_to_bytes(self) -> Seq<u8> {
        spec_u128_to_le_bytes(self.debit_balance) + spec_u128_to_le_bytes(self.credit_balance)
            + spec_u64_to_le_bytes(self.account_id) + spec_u32_to_le_bytes(self.checksum)
            + self._pad@
    }

    /// The checksum that a record with these bytes must carry.
    pub open spec fn spec_expected_checksum(self) -> u32 {
        spec_crc32(checksum_input(self.spec_to_bytes(), CHECKPOINT_CHECKSUM_OFFSET as int))
    }

    /// The stored checksum matches the record's bytes.
    pub open spec fn checksum_ok(self) -> bool {
        self.checksum == self.spec_expected_checksum()
    }

    /// The record of `entry`'s balances, with zeroed padding and its checksum
    /// filled in.
    pub open spec fn spec_from_entry(entry: AccountEntry) -> CheckpointRecord {
        let unsigned = CheckpointRecord {
            debit_balance: entry.debit_balance,
            credit_balance: entry.credit_balance,
            account_id: entry.account_id,
            checksum: 0,
            _pad: vstd::array::spec_array_fill_for_copy_type::<u8, 20>(0u8),
        };
        CheckpointRecord { checksum: unsigned.spec_expected_checksum(), ..unsigned }
    }

    pub proof fn lemma_len(self)
        ensures
            self.spec_to_bytes().len() == RECORD_SIZE,
    {
        lemma_le_lengths();
    }

    /// The record of `entry`'s balances, with zeroed padding and its checksum
    /// filled in.
    pub fn from_entry(entry: &AccountEntry) -> (cr: Self)
        ensures
            cr == Self::spec_from_entry(*entry),
            cr.checksum_ok(),
    {
        let mut cr = CheckpointRecord {
            debit_balance: entry.debit_balance,
            credit_balance: entry.credit_balance,
            account_id: entry.account_id,
            checksum: 0,
            _pad: [0u8; 20],
        };
        let bytes = cr.to_bytes();
        let checksum = record_checksum(bytes.as_slice(), CHECKPOINT_CHECKSUM_OFFSET);
        let ghost before = cr;
        cr.checksum = checksum;
        proof {
            before.lemma_len();
            cr.lemma_len();
            lemma_auto_spec_u128_to_from_le_bytes();
            lemma_auto_spec_u64_to_from_le_bytes();
            lemma_auto_spec_u32_to_from_le_bytes();
            assert(checksum_input(cr.spec_to_bytes(), 40) =~= checksum_input(before.spec_to_bytes(), 40));
        }
        cr
    }

    /// The 64 bytes of this record.
    pub fn to_bytes(&self) -> (bytes: Vec<u8>)
        ensures
            bytes@ == self.spec_to_bytes(),
            bytes@.len() == RECORD_SIZE,
    {
        let mut bytes = u128_to_le_bytes(self.debit_balance);
        let mut credit = u128_to_le_bytes(self.credit_balance);
        let mut id = u64_to_le_bytes(self.account_id);
        let mut checksum = u32_to_le_bytes(self.checksum);
        bytes.append(&mut credit);
        bytes.append(&mut id);
        bytes.append(&mut checksum);
        push_slice(&mut bytes, self._pad.as_slice());
        proof {
            self.lemma_len();
        }
        bytes
    }

    /// Reads a record from its 64 bytes.
    pub fn from_bytes(bytes: &[u8]) -> (r: Self)
        requires
            bytes@.len() == RECORD_SIZE,
        ensures
            r.spec_to_bytes() == bytes@,
    {
        let debit_balance = u128_from_le_bytes(vstd::slice::slice_subrange(bytes, 0, 16));
        let credit_balance = u128_from_le_bytes(vstd::slice::slice_subrange(bytes, 16, 32));
        let account_id = u64_from_le_bytes(vstd::slice::slice_subrange(bytes, 32, 40));
        let checksum = u32_from_le_bytes(vstd::slice::slice_subrange(bytes, 40, 44));
        let pad: [u8; 20] = read_array(bytes, 44);
        let r = CheckpointRecord { debit_balance, credit_balance, account_id, checksum, _pad: pad };
        proof {
            lemma_auto_spec_u128_to_from_le_bytes();
            lemma_auto_spec_u64_to_from_le_bytes();
            lemma_auto_spec_u32_to_from_le_bytes();
            let b = bytes@;
            assert(spec_u128_to_le_bytes(debit_balance) == b.subrange(0, 16));
            assert(spec_u128_to_le_bytes(credit_balance) == b.subrange(16, 32));
            assert(spec_u64_to_le_bytes(account_id) == b.subrange(32, 40));
            assert(spec_u32_to_le_bytes(checksum) == b.subrange(40, 44));
            assert(r.spec_to_bytes() =~= b);
        }
        r
    }

    /// Checks the stored checksum against the record's bytes.
    pub fn verify(&self) -> (r: Result<(), WeevilError>)
        ensures
            r is Ok <==> self.checksum_ok(),
            r matches Err(e) ==> e is ChecksumFailed,
    {
        let bytes = self.to_bytes();
        let checksum = record_checksum(bytes.as_slice(), CHECKPOINT_CHECKSUM_OFFSET);
        if checksum == self.checksum {
            return Ok(());
        }
        Err(WeevilError::ChecksumFailed)
    }
}

impl<'a> From<&'a AccountEntry> for CheckpointRecord {
    fn from(acct_entry: &'a AccountEntry) -> (cr: Self) {
        CheckpointRecord::from_entry(acct_entry)
    }
}

impl<'a> vstd::std_specs::convert::FromSpecImpl<&'a AccountEntry> for CheckpointRecord {
    open spec fn obeys_from_spec() -> bool {
        true
    }

    open spec fn from_spec(acct_entry: &'a AccountEntry) -> Self {
        CheckpointRecord::spec_from_entry(*acct_entry)
    }
}

/// Two checkpoint records with the same bytes are the same record.
pub proof fn lemma_checkpoint_bytes_determine(a: CheckpointRecord, b: CheckpointRecord)
    requires
        a.spec_to_bytes() == b.spec_to_bytes(),
    ensures
        a == b,
{
    broadcast use vstd::array::group_array_axioms;

    lemma_auto_spec_u128_to_from_le_bytes();
    lemma_auto_spec_u64_to_from_le_bytes();
    lemma_auto_spec_u32_to_from_le_bytes();
    let sa = a.spec_to_bytes();
    let sb = b.spec_to_bytes();
    a.lemma_len();
    b.lemma_len();
    assert(sa.subrange(0, 16) =~= spec_u128_to_le_bytes(a.debit_balance));
    assert(sb.subrange(0, 16) =~= spec_u128_to_le_bytes(b.debit_balance));
    assert(sa.subrange(16, 32) =~= spec_u128_to_le_bytes(a.credit_balance));
    assert(sb.subrange(16, 32) =~= spec_u128_to_le_bytes(b.credit_balance));
    assert(sa.subrange(32, 40) =~= spec_u64_to_le_bytes(a.account_id));
    assert(sb.subrange(32, 40) =~= spec_u64_to_le_bytes(b.account_id));
    assert(sa.subrange(40, 44) =~= spec_u32_to_le_bytes(a.checksum));
    assert(sb.subrange(40, 44) =~= spec_u32_to_le_bytes(b.checksum));
    assert(sa.subrange(44, 64) =~= a._pad@);
    assert(sb.subrange(44, 64) =~= b._pad@);
    assert(a._pad =~= b._pad);
}

/// The checkpoint record of an entry carries a checksum that matches it, and
/// reading its bytes back gives that record.
pub proof fn law_checkpoint_record_of_entry(e: AccountEntry)
    ensures
        CheckpointRecord::spec_from_entry(e).checksum_ok(),
        CheckpointRecord::spec_from_entry(e).spec_to_bytes().len() == RECORD_SIZE,
        forall|r: CheckpointRecord|
            #[trigger] r.spec_to_bytes() == CheckpointRecord::spec_from_entry(e).spec_to_bytes() ==> r
                == CheckpointRecord::spec_from_entry(e),
{
    let cr = CheckpointRecord::spec_from_entry(e);
    let unsigned = CheckpointRecord { checksum: 0, ..cr };
    cr.lemma_len();
    unsigned.lemma_len();
    lemma_auto_spec_u128_to_from_le_bytes();
    lemma_auto_spec_u64_to_from_le_bytes();
    lemma_auto_spec_u32_to_from_le_bytes();
    assert(checksum_input(cr.spec_to_bytes(), 40) =~= checksum_input(unsigned.spec_to_bytes(), 40));
    assert forall|r: CheckpointRecord| #[trigger] r.spec_to_bytes() == cr.spec_to_bytes() implies r == cr by {
        lemma_checkpoint_bytes_determine(r, cr);
    }
}

/// The net balance names the larger side and the difference: debits that
/// exceed credits give a debit balance of debits less credits; otherwise the
/// account has a credit balance of credits less debits (zero when equal).
/// Swapping the two sides swaps the kind of balance, except at a tie.
pub proof fn law_net_balance_sides(debit: u128, credit: u128)
    ensures
        debit > credit ==> spec_net_balance(debit, credit) == NetBalance::Debit(
            (debit - credit) as u128,
        ),
        debit <= credit ==> spec_net_balance(debit, credit) == NetBalance::Credit(
            (credit - debit) as u128,
        ),
        spec_net_balance(debit, credit) is Debit <==> debit > credit,
        debit != credit ==> (spec_net_balance(debit, credit) is Debit <==> spec_net_balance(
            credit,
            debit,
        ) is Credit),
        spec_net_balance(debit, debit) == NetBalance::Credit(0),
{
}

/// A response that is neither "not found" nor "cache full" shows its
/// account's net balance: a debit balance of debits less credits when debits
/// are larger, and otherwise a credit balance of credits less debits.
pub proof fn law_response_summary(r: AccountResponse)
    requires
        r.status != STATUS_NOT_FOUND,
        r.status != STATUS_CACHE_FULL,
    ensures
        r.debit_balance > r.credit_balance ==> r.spec_summary() == ResponseSummary::Balance(
            r.account_id,
            NetBalance::Debit((r.debit_balance - r.credit_balance) as u128),
        ),
        r.debit_balance <= r.credit_balance ==> r.spec_summary() == ResponseSummary::Balance(
            r.account_id,
            NetBalance::Credit((r.credit_balance - r.debit_balance) as u128),
        ),
{
}

/// A "not found" response says so, as does a "cache full" one, whatever
/// balances it carries.
pub proof fn law_response_summary_refusals(r: AccountResponse)
    ensures
        r.status == STATUS_NOT_FOUND ==> r.spec_summary() == ResponseSummary::NotFound,
        r.status == STATUS_CACHE_FULL ==> r.spec_summary() == ResponseSummary::CacheFull,
{
}

} // verus!
