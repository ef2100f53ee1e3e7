use weevil::account::{AccountEntry, AccountResponse, CheckpointRecord};
use weevil::account_cache::{AccountEntryCache, ReplayStop};
use weevil::server::{handle_request, Request};
use weevil::account::Account;
use weevil::transfer::Transfer;
use weevil::{WeevilError, MAX_ACCOUNTS, MAX_BATCH};

const TEST_ACCOUNT1: u64 = 99;
const TEST_ACCOUNT2: u64 = 42;

fn register(cache: &mut AccountEntryCache, id: u64) -> AccountResponse {
    handle_request(cache, &Request::Account(Account::new(id))).unwrap()
}

fn transfer(cache: &mut AccountEntryCache, amount: u128, debit: u64, credit: u64) -> AccountResponse {
    handle_request(cache, &Request::Transfer(Transfer::new(amount, debit, credit))).unwrap()
}

fn query(cache: &mut AccountEntryCache, id: u64) -> AccountResponse {
    handle_request(cache, &Request::Account(Account::new(id))).unwrap()
}

/// The server commits each batch to the log and then to the table; a
/// restart rebuilds the table from the log. The balances a client reads
/// before and after must agree.
#[test]
fn test_balance_survives_restart() {
    let mut wal: Vec<u8> = Vec::new();
    let mut cache = AccountEntryCache::new();

    // register accounts
    register(&mut cache, TEST_ACCOUNT1);
    register(&mut cache, TEST_ACCOUNT2);

    // send known transfers, each batch flushed after its request
    for (amount, debit, credit) in [
        (10_000u128, TEST_ACCOUNT1, TEST_ACCOUNT2),
        (3_000, TEST_ACCOUNT2, TEST_ACCOUNT1),
        (5_000, TEST_ACCOUNT1, TEST_ACCOUNT2),
    ] {
        transfer(&mut cache, amount, debit, credit);
        wal.extend_from_slice(&cache.pending_bytes());
        assert!(cache.flush_fits());
        cache.flush();
    }

    // query to get committed final balance
    let before1 = query(&mut cache, TEST_ACCOUNT1);
    let before2 = query(&mut cache, TEST_ACCOUNT2);

    // --- restart ---
    let mut restarted = AccountEntryCache::new();
    assert_eq!(restarted.replay_wal(&wal), Ok(()));

    let after1 = query(&mut restarted, TEST_ACCOUNT1);
    let after2 = query(&mut restarted, TEST_ACCOUNT2);

    assert_eq!(before1, after1);
    assert_eq!(before2, after2);
    assert_eq!((after1.debit_balance, after1.credit_balance), (15_000, 3_000));
    assert_eq!((after2.debit_balance, after2.credit_balance), (3_000, 15_000));
}

#[test]
fn insert_then_get() {
    let mut cache = AccountEntryCache::new();
    assert!(cache.get(5).is_none());
    let found = cache.insert(AccountEntry::new(5, 1, 2)).copied();
    assert_eq!(found.map(|e| (e.account_id, e.debit_balance, e.credit_balance)), Some((5, 1, 2)));
    // Colliding ids (same slot modulo the table size) probe onward.
    let collide = 5 + MAX_ACCOUNTS as u64;
    cache.insert(AccountEntry::new(collide, 3, 4));
    assert_eq!(cache.get(collide).map(|e| e.debit_balance), Some(3));
    assert_eq!(cache.get(5).map(|e| e.debit_balance), Some(1));
    // A second entry for an existing account does not hide the first.
    cache.insert(AccountEntry::new(5, 100, 100));
    assert_eq!(cache.get(5).map(|e| e.debit_balance), Some(1));
}

#[test]
fn get_mut_changes_the_entry() {
    let mut cache = AccountEntryCache::new();
    cache.insert(AccountEntry::new(8, 0, 0));
    if let Some(e) = cache.get_mut(8) {
        e.credit_balance = 77;
    }
    assert_eq!(cache.get(8).map(|e| e.credit_balance), Some(77));
    assert!(cache.get_mut(9).is_none());
}

#[test]
fn capacity_runs_out_after_every_slot() {
    let mut cache = AccountEntryCache::new();
    for id in 0..MAX_ACCOUNTS as u64 {
        assert!(cache.has_capacity(id));
        assert!(cache.insert(AccountEntry::new(id * 3, 0, 0)).is_some());
    }
    assert!(!cache.has_capacity(0));
    assert!(!cache.has_capacity(12345));
    assert!(cache.insert(AccountEntry::new(100_000, 0, 0)).is_none());
    assert_eq!(register(&mut cache, 100_001), AccountResponse::cache_full());
}

#[test]
fn add_transaction_until_full() {
    let mut cache = AccountEntryCache::new();
    for _ in 0..MAX_BATCH {
        assert!(cache.add_transaction(Transfer::new(1, 1, 2)).is_ok());
    }
    assert_eq!(cache.pending_len(), MAX_BATCH);
    assert!(matches!(
        cache.add_transaction(Transfer::new(1, 1, 2)),
        Err(WeevilError::PendingTransactionsFull)
    ));
}

#[test]
fn flush_applies_pending_and_skips_missing() {
    let mut cache = AccountEntryCache::new();
    cache.insert(AccountEntry::new(1, 0, 0));
    cache.insert(AccountEntry::new(2, 0, 0));
    cache.add_transaction(Transfer::new(40, 1, 2)).unwrap();
    cache.add_transaction(Transfer::new(5, 2, 3)).unwrap();
    assert_eq!(cache.pending_bytes().len(), 128);
    cache.flush();
    assert_eq!(cache.pending_len(), 0);
    assert_eq!(cache.get(1).map(|e| (e.debit_balance, e.credit_balance)), Some((40, 0)));
    assert_eq!(cache.get(2).map(|e| (e.debit_balance, e.credit_balance)), Some((5, 40)));
    assert!(cache.get(3).is_none());
    assert_eq!(cache.ledger_totals(), Some((45, 40)));
}

#[test]
fn flush_fits_detects_overflow() {
    let mut cache = AccountEntryCache::new();
    cache.insert(AccountEntry::new(1, u128::MAX - 10, 0));
    cache.insert(AccountEntry::new(2, 0, 0));
    cache.add_transaction(Transfer::new(5, 1, 2)).unwrap();
    assert!(cache.flush_fits());
    cache.add_transaction(Transfer::new(6, 1, 2)).unwrap();
    assert!(!cache.flush_fits());
}

#[test]
fn ledger_totals_overflow_is_none() {
    let mut cache = AccountEntryCache::new();
    cache.insert(AccountEntry::new(1, u128::MAX, 0));
    cache.insert(AccountEntry::new(2, 1, 0));
    assert_eq!(cache.ledger_totals(), None);
}

#[test]
fn checkpoint_round_trip() {
    let mut cache = AccountEntryCache::new();
    cache.insert(AccountEntry::new(10, 500, 0));
    cache.insert(AccountEntry::new(20, 0, 500));
    cache.insert(AccountEntry::new(10 + MAX_ACCOUNTS as u64, 7, 7));
    let image = cache.checkpoint_bytes();
    assert_eq!(image.len(), 3 * 64);
    let mut restored = AccountEntryCache::new();
    assert_eq!(restored.replay_checkpoint(&image), Ok(()));
    for id in [10u64, 20, 10 + MAX_ACCOUNTS as u64, 30] {
        let a = cache.get(id).map(|e| (e.debit_balance, e.credit_balance));
        let b = restored.get(id).map(|e| (e.debit_balance, e.credit_balance));
        assert_eq!(a, b);
    }
    assert_eq!(restored.ledger_totals(), Some((507, 507)));
}

#[test]
fn replay_checkpoint_stops_at_bad_checksum() {
    let mut image = CheckpointRecord::from(&AccountEntry::new(1, 2, 3)).to_bytes();
    let mut second = CheckpointRecord::from(&AccountEntry::new(4, 5, 6)).to_bytes();
    second[0] ^= 1;
    image.extend_from_slice(&second);
    image.extend_from_slice(&[9u8; 10]);
    let mut cache = AccountEntryCache::new();
    assert_eq!(cache.replay_checkpoint(&image), Err(ReplayStop::ChecksumFailed));
    assert!(cache.get(1).is_some());
    assert!(cache.get(4).is_none());
}

#[test]
fn replay_wal_creates_accounts_and_ignores_partial_record() {
    let mut wal = Transfer::new(300, 1, 2).to_bytes();
    wal.extend_from_slice(&Transfer::new(100, 2, 1).to_bytes());
    wal.extend_from_slice(&[0u8; 63]);
    let mut cache = AccountEntryCache::new();
    assert_eq!(cache.replay_wal(&wal), Ok(()));
    assert_eq!(cache.get(1).map(|e| (e.debit_balance, e.credit_balance)), Some((300, 100)));
    assert_eq!(cache.get(2).map(|e| (e.debit_balance, e.credit_balance)), Some((100, 300)));
}

#[test]
fn replay_wal_errors() {
    let mut bad = Transfer::new(300, 1, 2).to_bytes();
    bad[5] ^= 0xFF;
    let mut cache = AccountEntryCache::new();
    assert_eq!(cache.replay_wal(&bad), Err(ReplayStop::ChecksumFailed));

    let mut full = AccountEntryCache::new();
    for id in 0..MAX_ACCOUNTS as u64 {
        full.insert(AccountEntry::new(id, 0, 0));
    }
    let wal = Transfer::new(1, 0, 1_000_000).to_bytes();
    assert_eq!(full.replay_wal(&wal), Err(ReplayStop::OutOfSpace));
    assert_eq!(full.get(0).map(|e| e.debit_balance), Some(1));

    let mut big = AccountEntryCache::new();
    big.insert(AccountEntry::new(1, u128::MAX, 0));
    assert_eq!(big.replay_wal(&Transfer::new(1, 1, 2).to_bytes()), Err(ReplayStop::Overflow));
}

#[test]
fn flush_between_known_accounts_keeps_ledger_balanced() {
    let mut cache = AccountEntryCache::new();
    for id in [1u64, 2, 3] {
        register(&mut cache, id);
    }
    transfer(&mut cache, 700, 1, 2);
    transfer(&mut cache, 300, 2, 3);
    transfer(&mut cache, 50, 3, 1);
    assert_eq!(cache.ledger_totals(), Some((0, 0)));
    cache.flush();
    assert_eq!(cache.ledger_totals(), Some((1050, 1050)));
}

#[test]
fn restart_after_checkpoint_restores_balances() {
    let mut cache = AccountEntryCache::new();
    register(&mut cache, 5);
    register(&mut cache, 6);
    transfer(&mut cache, 1000, 5, 6);
    cache.flush();
    let checkpoint = cache.checkpoint_bytes();
    // the log is emptied after a checkpoint
    register(&mut cache, 7);
    transfer(&mut cache, 250, 6, 7);
    let wal = cache.pending_bytes();
    cache.flush();

    let mut restarted = AccountEntryCache::new();
    assert_eq!(restarted.replay_checkpoint(&checkpoint), Ok(()));
    assert_eq!(restarted.replay_wal(&wal), Ok(()));
    for id in [5u64, 6, 7] {
        assert_eq!(query(&mut restarted, id), query(&mut cache, id));
    }
}

#[test]
fn replayed_log_is_balanced_and_holds_every_named_account() {
    let mut wal = Vec::new();
    for (amount, debit, credit) in [(40u128, 8u64, 9u64), (15, 9, 10), (5, 10, 8)] {
        wal.extend_from_slice(&Transfer::new(amount, debit, credit).to_bytes());
    }
    let mut restarted = AccountEntryCache::new();
    assert_eq!(restarted.replay_wal(&wal), Ok(()));
    assert_eq!(restarted.ledger_totals(), Some((60, 60)));
    for id in [8u64, 9, 10] {
        assert!(restarted.get(id).is_some());
    }

    let checkpoint = restarted.checkpoint_bytes();
    let mut again = AccountEntryCache::new();
    assert_eq!(again.replay_checkpoint(&checkpoint), Ok(()));
    assert_eq!(again.ledger_totals(), Some((60, 60)));
}
