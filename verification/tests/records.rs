use weevil::account::{
    Account, AccountEntry, AccountResponse, CheckpointRecord, NetBalance, ResponseSummary,
    STATUS_CACHE_FULL, STATUS_NOT_FOUND, STATUS_SUCCESS,
};
use weevil::transaction::{Transaction, TransactionKind};
use weevil::transfer::Transfer;
use weevil::{MessageKind, WeevilError};

#[test]
fn test_account_cast() {
    let mut bytes = [0u8; 64];
    // account_id: 42 as u64, little-endian at offset 0
    bytes[0..8].copy_from_slice(&42u64.to_le_bytes());
    // message_kind = 0 (Account)
    bytes[63] = 0;

    let acct = Account::from_bytes(&bytes);
    assert_eq!(acct.account_id, 42);
    assert_eq!(acct.message_kind, MessageKind::Account.as_byte());
}

#[test]
fn test_not_found_checksum() {
    let response = AccountResponse::from_bytes(&AccountResponse::not_found().to_bytes());
    assert!(response.verify().is_ok());
}

#[test]
fn test_cache_full_checksum() {
    let response = AccountResponse::from_bytes(&AccountResponse::cache_full().to_bytes());
    assert!(response.verify().is_ok());
}

#[test]
fn test_transaction_cast() {
    let mut bytes = [0u8; 64];
    // amount: 1000 as u128, little-endian at offset 0
    bytes[0..16].copy_from_slice(&1000u128.to_le_bytes());
    // account_id: 42 as u64, little-endian at offset 16
    bytes[16..24].copy_from_slice(&42u64.to_le_bytes());
    // kind: 1 (Credit) at offset 24
    bytes[24] = 1;
    // message_kind = 1
    bytes[63] = 1;

    let tx = Transaction::from_bytes(&bytes);
    assert_eq!(tx.amount, 1000);
    assert_eq!(tx.account_id, 42);
    assert_eq!(tx.transaction_kind, 1);
    assert_eq!(tx.message_kind, MessageKind::Transfer.as_byte());
}

#[test]
fn test_transfer_cast() {
    let mut bytes = [0u8; 64];
    // amount: 1000 as u128, little-endian at offset 0
    bytes[0..16].copy_from_slice(&1000u128.to_le_bytes());
    // debit_account_id: 42 as u64, little-endian at offset 16
    bytes[16..24].copy_from_slice(&42u64.to_le_bytes());
    // credit_account_id: 9 as u64, little-endian at offset 24
    bytes[24..32].copy_from_slice(&9u64.to_le_bytes());
    // message_kind = 1 (Transfer)
    bytes[63] = 1;

    let tx = Transfer::from_bytes(&bytes);
    assert_eq!(tx.amount, 1000);
    assert_eq!(tx.debit_account_id, 42);
    assert_eq!(tx.credit_account_id, 9);
    assert_eq!(tx.message_kind, MessageKind::Transfer.as_byte());
}

#[test]
fn account_new_layout_and_checksum() {
    let acct = Account::new(42);
    let bytes = acct.to_bytes();
    assert_eq!(bytes.len(), 64);
    assert_eq!(&bytes[0..8], &42u64.to_le_bytes());
    assert_eq!(&bytes[8..12], &acct.checksum.to_le_bytes());
    assert!(bytes[12..63].iter().all(|b| *b == 0));
    assert_eq!(bytes[63], 0);
    // The checksum is the CRC-32 of the bytes with the checksum field zeroed.
    let mut zeroed = bytes.clone();
    zeroed[8..12].copy_from_slice(&[0, 0, 0, 0]);
    assert_eq!(acct.checksum, weevil::crc32(&zeroed));
    assert!(acct.verify().is_ok());
}

#[test]
fn account_corrupted_byte_fails_verify() {
    let mut bytes = Account::new(7).to_bytes();
    bytes[20] ^= 0x01;
    let acct = Account::from_bytes(&bytes);
    assert!(matches!(acct.verify(), Err(WeevilError::ChecksumFailed)));
}

#[test]
fn transfer_new_verifies_and_round_trips() {
    let tx = Transfer::new(10_000, 99, 42);
    assert!(tx.verify().is_ok());
    let bytes = tx.to_bytes();
    assert_eq!(&bytes[0..16], &10_000u128.to_le_bytes());
    assert_eq!(&bytes[16..24], &99u64.to_le_bytes());
    assert_eq!(&bytes[24..32], &42u64.to_le_bytes());
    assert_eq!(bytes[63], 1);
    let back = Transfer::from_bytes(&bytes);
    assert_eq!(back.to_bytes(), bytes);
    assert_eq!(back.checksum, tx.checksum);
    let mut zeroed = bytes.clone();
    zeroed[32..36].copy_from_slice(&[0, 0, 0, 0]);
    assert_eq!(tx.checksum, weevil::crc32(&zeroed));
}

#[test]
fn transfer_tampered_amount_fails_verify() {
    let mut tx = Transfer::new(10_000, 1, 2);
    tx.amount = 10_001;
    assert!(matches!(tx.verify(), Err(WeevilError::ChecksumFailed)));
}

#[test]
fn transaction_new_kind_and_verify() {
    let tx = Transaction::new(1000, 42, TransactionKind::Credit);
    assert!(tx.verify().is_ok());
    assert_eq!(tx.kind().unwrap(), TransactionKind::Credit);
    let debit = Transaction::new(5, 1, TransactionKind::Debit);
    assert_eq!(debit.kind().unwrap(), TransactionKind::Debit);
    assert_eq!(TransactionKind::Debit.name(), "DEBIT");
    assert_eq!(TransactionKind::Credit.name(), "CREDIT");
    let mut copy = tx;
    copy.checksum = 0;
    assert_eq!(tx.checksum, weevil::crc32(&copy.to_bytes()));
}

#[test]
fn transaction_invalid_kind_is_refused() {
    let mut bytes = Transaction::new(1000, 42, TransactionKind::Debit).to_bytes();
    bytes[24] = 7;
    let tx = Transaction::from_bytes(&bytes);
    assert!(matches!(tx.kind(), Err(WeevilError::InvalidMessageKind(7))));
    assert!(matches!(tx.verify(), Err(WeevilError::ChecksumFailed)));
}

#[test]
fn entry_apply_transaction_sides() {
    let tx = Transfer::new(250, 1, 2);
    let mut debit = AccountEntry::new(1, 10, 20);
    assert!(debit.apply_transaction(&tx).is_ok());
    assert_eq!((debit.debit_balance, debit.credit_balance), (260, 20));
    let mut credit = AccountEntry::new(2, 10, 20);
    assert!(credit.apply_transaction(&tx).is_ok());
    assert_eq!((credit.debit_balance, credit.credit_balance), (10, 270));
    let mut other = AccountEntry::new(3, 10, 20);
    assert!(matches!(other.apply_transaction(&tx), Err(WeevilError::InvalidAccountId(1, 2))));
    assert_eq!((other.debit_balance, other.credit_balance), (10, 20));
}

#[test]
fn entry_response_and_net_balance() {
    let entry = AccountEntry::new(5, 3000, 10_000);
    let response = entry.response();
    assert!(response.verify().is_ok());
    assert_eq!(response.status, STATUS_SUCCESS);
    assert_eq!(response.account_id, 5);
    assert_eq!(entry.net_balance(), NetBalance::Credit(7000));
    assert_eq!(AccountEntry::new(5, 10, 4).net_balance(), NetBalance::Debit(6));
    assert_eq!(AccountEntry::new(5, 4, 4).net_balance(), NetBalance::Credit(0));
    assert_eq!(response.summary(), ResponseSummary::Balance(5, NetBalance::Credit(7000)));
    let back = AccountResponse::from_bytes(&response.to_bytes());
    assert_eq!(back, response);
}

#[test]
fn response_summaries_by_status() {
    assert_eq!(AccountResponse::not_found().status, STATUS_NOT_FOUND);
    assert_eq!(AccountResponse::not_found().summary(), ResponseSummary::NotFound);
    assert_eq!(AccountResponse::cache_full().status, STATUS_CACHE_FULL);
    assert_eq!(AccountResponse::cache_full().summary(), ResponseSummary::CacheFull);
}

#[test]
fn checkpoint_record_from_entry() {
    let entry = AccountEntry::new(77, 123, 456);
    let cr = CheckpointRecord::from(&entry);
    assert!(cr.verify().is_ok());
    assert_eq!((cr.account_id, cr.debit_balance, cr.credit_balance), (77, 123, 456));
    let bytes = cr.to_bytes();
    assert_eq!(bytes.len(), 64);
    assert_eq!(&bytes[32..40], &77u64.to_le_bytes());
    let mut zeroed = bytes.clone();
    zeroed[40..44].copy_from_slice(&[0, 0, 0, 0]);
    assert_eq!(cr.checksum, weevil::crc32(&zeroed));
    let mut corrupted = bytes.clone();
    corrupted[0] ^= 0x80;
    assert!(CheckpointRecord::from_bytes(&corrupted).verify().is_err());
}

#[test]
fn transfer_single_bit_flips_fail_checksum() {
    let bytes = Transfer::new(123_456, 17, 29).to_bytes();
    assert!(Transfer::from_bytes(&bytes).verify().is_ok());
    for i in (0..64).filter(|i| !(32..36).contains(i)) {
        for j in 0..8 {
            let mut flipped = bytes.clone();
            flipped[i] ^= 1u8 << j;
            let u = Transfer::from_bytes(&flipped);
            assert!(matches!(u.verify(), Err(WeevilError::ChecksumFailed)), "byte {i} bit {j}");
        }
    }
}
