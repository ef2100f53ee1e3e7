use weevil::account::{Account, AccountResponse};
use weevil::account_cache::AccountEntryCache;
use weevil::server::{
    handle_request, next_token, parse_message, EventAction, ReadNext, ReadOutcome, Request,
    SessionState, SessionStatus, WriteOutcome,
};
use weevil::transfer::Transfer;
use weevil::WeevilError;

#[test]
fn parse_message_kinds_and_errors() {
    let acct = Account::new(3).to_bytes();
    assert!(matches!(parse_message(&acct), Ok(Request::Account(a)) if a.account_id == 3));
    let tx = Transfer::new(9, 3, 4).to_bytes();
    assert!(matches!(parse_message(&tx), Ok(Request::Transfer(t)) if t.amount == 9));
    let mut wrong_kind = tx.clone();
    wrong_kind[63] = 7;
    assert!(matches!(parse_message(&wrong_kind), Err(WeevilError::InvalidMessageKind(7))));
    let mut corrupt = acct.clone();
    corrupt[2] ^= 4;
    assert!(matches!(parse_message(&corrupt), Err(WeevilError::ChecksumFailed)));
}

#[test]
fn handle_request_paths() {
    let mut cache = AccountEntryCache::new();
    let r = handle_request(&mut cache, &Request::Account(Account::new(1))).unwrap();
    assert_eq!((r.account_id, r.debit_balance, r.credit_balance, r.status), (1, 0, 0, 0));
    assert!(r.verify().is_ok());
    handle_request(&mut cache, &Request::Account(Account::new(2))).unwrap();
    let unknown = handle_request(&mut cache, &Request::Transfer(Transfer::new(5, 1, 3))).unwrap();
    assert_eq!(unknown, AccountResponse::not_found());
    assert_eq!(cache.pending_len(), 0);
    let mut same = Transfer::new(5, 1, 2);
    same.credit_account_id = 1;
    assert!(matches!(
        handle_request(&mut cache, &Request::Transfer(same)),
        Err(WeevilError::SelfTransfer(1))
    ));
    let ok = handle_request(&mut cache, &Request::Transfer(Transfer::new(5, 1, 2))).unwrap();
    // Answered with the committed balances: the transfer waits for the flush.
    assert_eq!((ok.account_id, ok.debit_balance), (1, 0));
    assert_eq!(cache.pending_len(), 1);
}

#[test]
fn session_lifecycle() {
    let mut s = SessionState::new();
    assert_eq!(s.action(true, false), EventAction::Read);
    assert_eq!(s.action(false, true), EventAction::Wait);
    let bytes = Account::new(11).to_bytes();
    assert_eq!(s.room(), 64);
    assert!(s.receive(&bytes[..20]).is_none());
    assert_eq!(s.room(), 44);
    let whole = s.receive(&bytes[20..]).unwrap();
    assert_eq!(whole.to_vec(), bytes);
    assert_eq!(s.room(), 64);

    let resp = AccountResponse::not_found();
    s.stage_response(resp);
    assert_eq!(s.action(true, true), EventAction::Wait);
    assert!(s.outgoing().is_none());
    assert!(s.commit());
    assert!(!s.commit());
    assert_eq!(s.outgoing(), Some(resp));
    assert_eq!(s.action(false, true), EventAction::Write);
    s.write_finished(WriteOutcome::Retry);
    assert!(matches!(s.current_status(), SessionStatus::Writing(_)));
    s.write_finished(WriteOutcome::Written);
    assert!(matches!(s.current_status(), SessionStatus::Reading));
    s.close();
    assert_eq!(s.action(false, false), EventAction::Close);
}

#[test]
fn write_reset_closes() {
    let mut s = SessionState::new();
    s.stage_response(AccountResponse::cache_full());
    s.commit();
    s.write_finished(WriteOutcome::Closed);
    assert!(matches!(s.current_status(), SessionStatus::Closing));
}

#[test]
fn next_token_skips_listener_slot() {
    assert_eq!(next_token(&[false, false, true]), Some(1));
    assert_eq!(next_token(&[false, true, true, false]), Some(3));
    assert_eq!(next_token(&[false, true]), None);
    assert_eq!(next_token(&[]), None);
}

#[test]
fn read_outcomes_move_the_session() {
    let bytes = Transfer::new(4, 1, 2).to_bytes();
    let mut s = SessionState::new();
    assert!(matches!(s.read_finished(ReadOutcome::Data, &bytes[..10]), ReadNext::ReadAgain));
    assert!(matches!(s.read_finished(ReadOutcome::Interrupted, &[]), ReadNext::ReadAgain));
    assert!(matches!(s.read_finished(ReadOutcome::WouldBlock, &[]), ReadNext::Stop));
    assert_eq!(s.room(), 54);
    assert!(matches!(s.current_status(), SessionStatus::Reading));
    match s.read_finished(ReadOutcome::Data, &bytes[10..]) {
        ReadNext::Message(m) => assert_eq!(m.to_vec(), bytes),
        other => panic!("expected a whole request, got {:?}", other),
    }
    assert_eq!(s.room(), 64);
    for ending in [ReadOutcome::EndOfStream, ReadOutcome::Reset, ReadOutcome::Failed] {
        let mut t = SessionState::new();
        assert!(matches!(t.read_finished(ending, &[]), ReadNext::Stop));
        assert!(matches!(t.current_status(), SessionStatus::Closing));
    }
}

#[test]
fn answered_holds_or_closes() {
    let mut s = SessionState::new();
    let resp = AccountResponse::not_found();
    s.answered(&Ok(resp));
    assert!(matches!(s.current_status(), SessionStatus::AwaitingCommit(r) if r == resp));
    let mut t = SessionState::new();
    t.answered(&Err(WeevilError::ChecksumFailed));
    assert!(matches!(t.current_status(), SessionStatus::Closing));
}
