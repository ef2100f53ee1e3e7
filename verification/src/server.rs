//! The server's decisions, apart from its sockets: what an incoming 64-byte
//! message is, how the account table answers it, and the state of each
//! client session (reading a request, holding a response until the batch is
//! durable, writing it, closing).

use vstd::prelude::*;

use crate::account::{Account, AccountEntry, AccountResponse, STATUS_SUCCESS};
use crate::account_cache::{find_free, lookup, spec_insert, AccountEntryCache};
use crate::durability::{run_op, LedgerOp};
use crate::layout::RECORD_SIZE;
use crate::transfer::Transfer;
use crate::{MessageKind, WeevilError, MAX_BATCH};

verus! {

/// A request read off the wire.
#[derive(Debug, Clone, Copy)]
pub enum Request {
    /// Register an account, or ask for its balances.
    Account(Account),
    /// Move an amount from one account to another.
    Transfer(Transfer),
}

/// The account message stored in these 64 bytes.
pub open spec fn decode_account(b: Seq<u8>) -> Account {
    choose|a: Account| a.spec_to_bytes() == b
}

/// The transfer stored in these 64 bytes.
pub open spec fn decode_transfer_message(b: Seq<u8>) -> Transfer {
    choose|t: Transfer| t.spec_to_bytes() == b
}

/// What a 64-byte message means: its last byte names its kind, and a message
/// whose checksum fails is refused.
pub open spec fn spec_parse_message(b: Seq<u8>) -> Result<Request, WeevilError> {
    if b[63] == MessageKind::Account.spec_byte() {
        if decode_account(b).checksum_ok() {
            Ok(Request::Account(decode_account(b)))
        } else {
            Err(WeevilError::ChecksumFailed)
        }
    } else if b[63] == MessageKind::Transfer.spec_byte() {
        if decode_transfer_message(b).checksum_ok() {
            Ok(Request::Transfer(decode_transfer_message(b)))
        } else {
            Err(WeevilError::ChecksumFailed)
        }
    } else {
        Err(WeevilError::InvalidMessageKind(b[63]))
    }
}

/// Reads a request from a complete 64-byte message.
pub fn parse_message(bytes: &[u8]) -> (r: Result<Request, WeevilError>)
    requires
        bytes@.len() == RECORD_SIZE,
    ensures
        r == spec_parse_message(bytes@),
{
    let kind = bytes[63];
    if kind == MessageKind::Account.as_byte() {
        let acct = Account::from_bytes(bytes);
        proof {
            crate::account::lemma_account_bytes_determine(acct, decode_account(bytes@));
        }
        match acct.verify() {
            Ok(()) => Ok(Request::Account(acct)),
            Err(e) => Err(e),
        }
    } else if kind == MessageKind::Transfer.as_byte() {
        let tx = Transfer::from_bytes(bytes);
        proof {
            crate::transfer::lemma_transfer_bytes_determine(tx, decode_transfer_message(bytes@));
        }
        match tx.verify() {
            Ok(()) => Ok(Request::Transfer(tx)),
            Err(e) => Err(e),
        }
    } else {
        Err(WeevilError::InvalidMessageKind(kind))
    }
}

/// `r` reports the committed balances of `e`, with status success and a
/// checksum that matches.
pub open spec fn reports(r: AccountResponse, e: AccountEntry) -> bool {
    &&& r.debit_balance == e.debit_balance
    &&& r.credit_balance == e.credit_balance
    &&& r.account_id == e.account_id
    &&& r._pad@ == Seq::new(19, |i: int| 0u8)
    &&& r.status == STATUS_SUCCESS
    &&& r.checksum_ok()
}

/// Answers a request from the account table.
///
/// An account request reports the account's committed balances; an unknown
/// account is registered with zero balances when the table has room, and
/// answered "cache full" when it has none. A transfer between two known,
/// different accounts joins the pending batch and is answered with the debit
/// account's committed balances (the batch is applied at the next flush); a
/// transfer naming an unknown account is answered "not found"; one naming
/// the same account twice is refused, as is one that finds the batch full.
pub fn handle_request(cache: &mut AccountEntryCache, req: &Request) -> (r: Result<
    AccountResponse,
    WeevilError,
>)
    requires
        old(cache).wf(),
    ensures
        final(cache).wf(),
        old(cache).is_clustered() ==> final(cache).is_clustered(),
        old(cache).pending_ok() ==> final(cache).pending_ok(),
        match *req {
            Request::Account(a) => {
                &&& final(cache).pending() == old(cache).pending()
                &&& final(cache).slots() == run_op(
                    old(cache).slots(),
                    LedgerOp::Register(a.account_id),
                )
                &&& match lookup(old(cache).slots(), a.account_id) {
                    Some(e) => {
                        &&& final(cache).slots() == old(cache).slots()
                        &&& r matches Ok(resp) && reports(resp, e)
                    },
                    None => if find_free(old(cache).slots(), a.account_id, 0) is Some {
                        let fresh = AccountEntry {
                            account_id: a.account_id,
                            debit_balance: 0,
                            credit_balance: 0,
                        };
                        &&& final(cache).slots() == spec_insert(old(cache).slots(), fresh)
                        &&& r matches Ok(resp) && reports(resp, fresh)
                    } else {
                        &&& final(cache).slots() == old(cache).slots()
                        &&& r matches Ok(resp) && resp == AccountResponse::spec_cache_full()
                    },
                }
            },
            Request::Transfer(t) => {
                &&& final(cache).slots() == old(cache).slots()
                &&& if t.debit_account_id == t.credit_account_id {
                    &&& final(cache).pending() == old(cache).pending()
                    &&& r == Err::<AccountResponse, WeevilError>(
                        WeevilError::SelfTransfer(t.debit_account_id),
                    )
                } else if lookup(old(cache).slots(), t.debit_account_id) is None || lookup(
                    old(cache).slots(),
                    t.credit_account_id,
                ) is None {
                    &&& final(cache).pending() == old(cache).pending()
                    &&& r matches Ok(resp) && resp == AccountResponse::spec_not_found()
                } else if old(cache).pending().len() >= MAX_BATCH {
                    &&& final(cache).pending() == old(cache).pending()
                    &&& r == Err::<AccountResponse, WeevilError>(
                        WeevilError::PendingTransactionsFull,
                    )
                } else {
                    &&& final(cache).pending() == old(cache).pending().push(t)
                    &&& r matches Ok(resp) && reports(
                        resp,
                        lookup(old(cache).slots(), t.debit_account_id)->0,
                    )
                }
            },
        },
{
    match req {
        Request::Account(acct) => {
            let id = acct.account_id;
            if let Some(entry) = cache.get(id) {
                return Ok(entry.response());
            }
            if !cache.has_capacity(id) {
                return Ok(AccountResponse::cache_full());
            }
            let fresh = AccountEntry::new(id, 0, 0);
            let response = fresh.response();
            proof {
                crate::account_cache::law_insert_new_account(cache.slots(), fresh);
                if cache.is_clustered() {
                    crate::account_cache::law_insert_keeps_clustered(cache.slots(), fresh);
                }
            }
            let _ = cache.insert(fresh);
            Ok(response)
        },
        Request::Transfer(tx) => {
            if tx.debit_account_id == tx.credit_account_id {
                return Err(WeevilError::SelfTransfer(tx.debit_account_id));
            }
            let response = match cache.get(tx.debit_account_id) {
                Some(entry) => entry.response(),
                None => {
                    return Ok(AccountResponse::not_found());
                },
            };
            if cache.get(tx.credit_account_id).is_none() {
                return Ok(AccountResponse::not_found());
            }
            match cache.add_transaction(*tx) {
                Ok(()) => Ok(response),
                Err(e) => Err(e),
            }
        },
    }
}

/// Where a client session stands.
#[derive(Debug, Clone, Copy)]
pub enum SessionStatus {
    /// Reading the next request.
    Reading,
    /// A response is ready, and waits until the batch it belongs to is durable.
    AwaitingCommit(AccountResponse),
    /// A response is being written back.
    Writing(AccountResponse),
    /// The session is over.
    Closing,
}

/// What to do with a session when its socket reports an event.
#[derive(Debug, Clone, Copy, PartialEq, Eq, Structural)]
pub enum EventAction {
    /// Read from the socket.
    Read,
    /// Write the staged response.
    Write,
    /// Close the session.
    Close,
    /// Nothing to do yet.
    Wait,
}

/// How writing a response went.
#[derive(Debug, Clone, Copy, PartialEq, Eq, Structural)]
pub enum WriteOutcome {
    /// The whole response was written.
    Written,
    /// The socket was not ready; try again later.
    Retry,
    /// The peer went away.
    Closed,
}


/// What a read from the socket brought.
#[derive(Debug, Clone, Copy, PartialEq, Eq, Structural)]
pub enum ReadOutcome {
    /// Some bytes.
    Data,
    /// The end of the stream: the peer closed its side.
    EndOfStream,
    /// Nothing to read yet.
    WouldBlock,
    /// The read was interrupted before anything was read.
    Interrupted,
    /// The peer reset the connection.
    Reset,
    /// The read failed for another reason.
    Failed,
}

/// What to do after a read.
#[derive(Debug, Clone, Copy)]
pub enum ReadNext {
    /// Read again.
    ReadAgain,
    /// A whole request arrived.
    Message([u8; 64]),
    /// Stop reading for now.
    Stop,
}

/// The state of one client session apart from its socket: the bytes of the
/// request read so far, and where the session stands.
pub struct SessionState {
    read_buf: [u8; 64],
    offset: usize,
    status: SessionStatus,
}

impl SessionState {
    /// The bytes of the current request read so far.
    pub closed spec fn buffered(self) -> Seq<u8> {
        self.read_buf@.take(self.offset as int)
    }

    /// Where the session stands.
    pub closed spec fn status(self) -> SessionStatus {
        self.status
    }

    /// Fewer than a whole message is ever held.
    pub open spec fn wf(self) -> bool {
        &&& self.buffered().len() < RECORD_SIZE
        &&& self.buf_wf()
    }

    /// The count of bytes read fits the buffer.
    pub closed spec fn buf_wf(self) -> bool {
        self.offset < RECORD_SIZE && self.read_buf@.len() == RECORD_SIZE
    }

    /// A session that waits for its first request.
    pub fn new() -> (s: Self)
        ensures
            s.wf(),
            s.buffered() == Seq::<u8>::empty(),
            s.status() is Reading,
    {
        let s = SessionState { read_buf: [0u8; 64], offset: 0, status: SessionStatus::Reading };
        assert(s.buffered() =~= Seq::<u8>::empty());
        s
    }

    /// Where the session stands.
    pub fn current_status(&self) -> (st: SessionStatus)
        ensures
            st == self.status(),
    {
        self.status
    }

    /// What to do on an event: read when reading and readable, write when
    /// writing and writable, close a closing session, and otherwise wait (a
    /// response waiting for its batch, or a spurious wake-up).
    pub fn action(&self, readable: bool, writable: bool) -> (a: EventAction)
        ensures
            a == spec_action(self.status(), readable, writable),
    {
        match self.status {
            SessionStatus::Reading => if readable {
                EventAction::Read
            } else {
                EventAction::Wait
            },
            SessionStatus::Writing(_) => if writable {
                EventAction::Write
            } else {
                EventAction::Wait
            },
            SessionStatus::Closing => EventAction::Close,
            SessionStatus::AwaitingCommit(_) => EventAction::Wait,
        }
    }

    /// How many more bytes complete the current request.
    pub fn room(&self) -> (n: usize)
        requires
            self.wf(),
        ensures
            n == RECORD_SIZE - self.buffered().len(),
            0 < n <= RECORD_SIZE,
    {
        RECORD_SIZE - self.offset
    }

    /// Takes bytes read from the socket. When they complete a 64-byte
    /// request, the request is handed back and the buffer starts over.
    pub fn receive(&mut self, data: &[u8]) -> (r: Option<[u8; 64]>)
        requires
            old(self).wf(),
            old(self).buffered().len() + data@.len() <= RECORD_SIZE,
        ensures
            final(self).wf(),
            final(self).status() == old(self).status(),
            old(self).buffered() + data@ == (match r {
                Some(m) => m@,
                None => final(self).buffered(),
            }),
            r is Some <==> old(self).buffered().len() + data@.len() == RECORD_SIZE,
            r is Some ==> final(self).buffered() == Seq::<u8>::empty(),
    {
        let ghost before = self.buffered();
        let mut i: usize = 0;
        while i < data.len()
            invariant
                self.read_buf@.len() == RECORD_SIZE,
                self.offset == old(self).offset + i,
                old(self).offset + data@.len() <= RECORD_SIZE,
                i <= data@.len(),
                self.status == old(self).status,
                self.read_buf@.take(self.offset as int) == before + data@.take(i as int),
            decreases data@.len() - i,
        {
            let ghost prev = self.read_buf@;
            self.read_buf[self.offset] = data[i];
            proof {
                assert(self.read_buf@ == prev.update(self.offset as int, data@[i as int]));
                assert(self.read_buf@.take(self.offset + 1) =~= prev.take(self.offset as int).push(
                    data@[i as int],
                ));
                assert(data@.take(i + 1) =~= data@.take(i as int).push(data@[i as int]));
            }
            self.offset = self.offset + 1;
            i = i + 1;
        }
        assert(data@.take(data@.len() as int) =~= data@);
        if self.offset == RECORD_SIZE {
            let message = self.read_buf;
            self.offset = 0;
            assert(message@ =~= message@.take(64));
            assert(self.buffered() =~= Seq::<u8>::empty());
            Some(message)
        } else {
            None
        }
    }

    /// After a read attempt: bytes are taken in, and a completed request is
    /// handed back; a read that was interrupted, or that brought bytes but no
    /// whole request, is tried again; a socket with nothing more stops the
    /// reading for now; the end of the stream, a reset connection or any
    /// other failure closes the session.
    pub fn read_finished(&mut self, outcome: ReadOutcome, data: &[u8]) -> (next: ReadNext)
        requires
            old(self).wf(),
            outcome is Data ==> old(self).buffered().len() + data@.len() <= RECORD_SIZE,
        ensures
            final(self).wf(),
            match outcome {
                ReadOutcome::Data => {
                    &&& final(self).status() == old(self).status()
                    &&& old(self).buffered() + data@ == (match next {
                        ReadNext::Message(m) => m@,
                        _ => final(self).buffered(),
                    })
                    &&& (next is Message <==> old(self).buffered().len() + data@.len()
                        == RECORD_SIZE)
                    &&& (next is Message ==> final(self).buffered() == Seq::<u8>::empty())
                    &&& !(next is Stop)
                },
                ReadOutcome::Interrupted => {
                    &&& next is ReadAgain
                    &&& final(self).buffered() == old(self).buffered()
                    &&& final(self).status() == old(self).status()
                },
                ReadOutcome::WouldBlock => {
                    &&& next is Stop
                    &&& final(self).buffered() == old(self).buffered()
                    &&& final(self).status() == old(self).status()
                },
                _ => {
                    &&& next is Stop
                    &&& final(self).buffered() == old(self).buffered()
                    &&& final(self).status() is Closing
                },
            },
    {
        match outcome {
            ReadOutcome::Data => match self.receive(data) {
                Some(message) => ReadNext::Message(message),
                None => ReadNext::ReadAgain,
            },
            ReadOutcome::Interrupted => ReadNext::ReadAgain,
            ReadOutcome::WouldBlock => ReadNext::Stop,
            _ => {
                self.close();
                ReadNext::Stop
            },
        }
    }

    /// After a request was answered: a response is held until its batch is
    /// durable; a refused request ends the session.
    pub fn answered(&mut self, answer: &Result<AccountResponse, WeevilError>)
        ensures
            final(self).buffered() == old(self).buffered(),
            final(self).wf() == old(self).wf(),
            match answer {
                Ok(r) => final(self).status() == SessionStatus::AwaitingCommit(*r),
                Err(_) => final(self).status() is Closing,
            },
    {
        match answer {
            Ok(r) => self.stage_response(*r),
            Err(_) => self.close(),
        }
    }

    /// Ends the session.
    pub fn close(&mut self)
        ensures
            final(self).buffered() == old(self).buffered(),
            final(self).wf() == old(self).wf(),
            final(self).status() is Closing,
    {
        self.status = SessionStatus::Closing;
    }

    /// Holds `response` until the batch it belongs to is durable.
    pub fn stage_response(&mut self, response: AccountResponse)
        ensures
            final(self).buffered() == old(self).buffered(),
            final(self).wf() == old(self).wf(),
            final(self).status() == SessionStatus::AwaitingCommit(response),
    {
        self.status = SessionStatus::AwaitingCommit(response);
    }

    /// Once the batch is durable, a held response may be written: a session
    /// awaiting commit moves to writing the same response; any other stays
    /// as it is. Says whether the session moved.
    pub fn commit(&mut self) -> (moved: bool)
        ensures
            final(self).buffered() == old(self).buffered(),
            moved <==> old(self).status() is AwaitingCommit,
            match old(self).status() {
                SessionStatus::AwaitingCommit(r) => final(self).status() == SessionStatus::Writing(r),
                _ => final(self).status() == old(self).status(),
            },
    {
        match self.status {
            SessionStatus::AwaitingCommit(r) => {
                self.status = SessionStatus::Writing(r);
                true
            },
            _ => false,
        }
    }

    /// The response being written, if any.
    pub fn outgoing(&self) -> (r: Option<AccountResponse>)
        ensures
            r == (match self.status() {
                SessionStatus::Writing(resp) => Some(resp),
                _ => None,
            }),
    {
        match self.status {
            SessionStatus::Writing(resp) => Some(resp),
            _ => None,
        }
    }

    /// After a write attempt: a written response returns the session to
    /// reading, a socket that was not ready keeps it writing, and a peer that
    /// went away closes it. A session that was not writing stays as it is.
    pub fn write_finished(&mut self, outcome: WriteOutcome)
        ensures
            final(self).buffered() == old(self).buffered(),
            old(self).status() is Writing ==> final(self).status() == (match outcome {
                WriteOutcome::Written => SessionStatus::Reading,
                WriteOutcome::Retry => old(self).status(),
                WriteOutcome::Closed => SessionStatus::Closing,
            }),
            !(old(self).status() is Writing) ==> final(self).status() == old(self).status(),
    {
        if let SessionStatus::Writing(_) = self.status {
            match outcome {
                WriteOutcome::Written => {
                    self.status = SessionStatus::Reading;
                },
                WriteOutcome::Retry => {},
                WriteOutcome::Closed => {
                    self.status = SessionStatus::Closing;
                },
            }
        }
    }
}

/// What to do with a session in `status` on an event.
pub open spec fn spec_action(status: SessionStatus, readable: bool, writable: bool) -> EventAction {
    match status {
        SessionStatus::Reading => if readable {
            EventAction::Read
        } else {
            EventAction::Wait
        },
        SessionStatus::Writing(_) => if writable {
            EventAction::Write
        } else {
            EventAction::Wait
        },
        SessionStatus::Closing => EventAction::Close,
        SessionStatus::AwaitingCommit(_) => EventAction::Wait,
    }
}

/// No client is answered before its batch is durable: a session holding a
/// response never writes, whatever its socket reports, and only a commit
/// turns it into a session that writes that same response.
pub proof fn law_response_waits_for_commit(response: AccountResponse, readable: bool, writable: bool)
    ensures
        spec_action(SessionStatus::AwaitingCommit(response), readable, writable) != EventAction::Write,
        spec_action(SessionStatus::Reading, readable, writable) != EventAction::Write,
        spec_action(SessionStatus::Writing(response), readable, true) == EventAction::Write,
{
}

/// The token of the first free connection slot, skipping slot 0, which
/// belongs to the listening socket.
pub fn next_token(occupied: &[bool]) -> (r: Option<usize>)
    ensures
        r matches Some(i) ==> 1 <= i < occupied@.len() && !occupied@[i as int] && forall|j: int|
            1 <= j < i ==> #[trigger] occupied@[j],
        r is None ==> forall|j: int| 1 <= j < occupied@.len() ==> #[trigger] occupied@[j],
{
    let mut i: usize = 1;
    while i < occupied.len()
        invariant
            1 <= i,
            i <= occupied@.len() || occupied@.len() == 0,
            forall|j: int| 1 <= j < i && j < occupied@.len() ==> #[trigger] occupied@[j],
        decreases occupied@.len() - i,
    {
        if !occupied[i] {
            return Some(i);
        }
        i = i + 1;
    }
    None
}

/// Reading a transfer message gives back the transfer whose 64 bytes it is:
/// the amount from bytes 0..16, the debit account from 16..24 and the credit
/// account from 24..32. A message whose checksum fails is refused.
pub proof fn law_parse_reads_transfer(t: Transfer)
    requires
        t.message_kind == 1u8,
    ensures
        spec_parse_message(t.spec_to_bytes()) == if t.checksum_ok() {
            Ok::<Request, WeevilError>(Request::Transfer(t))
        } else {
            Err(WeevilError::ChecksumFailed)
        },
{
    t.lemma_len();
    let b = t.spec_to_bytes();
    assert(b[63] == t.message_kind);
    assert(exists|u: Transfer| u.spec_to_bytes() == b);
    crate::transfer::lemma_transfer_bytes_determine(t, decode_transfer_message(b));
}

/// Reading an account message gives back the account whose 64 bytes it is,
/// its id from bytes 0..8. A message whose checksum fails is refused.
pub proof fn law_parse_reads_account(a: Account)
    requires
        a.message_kind == 0u8,
    ensures
        spec_parse_message(a.spec_to_bytes()) == if a.checksum_ok() {
            Ok::<Request, WeevilError>(Request::Account(a))
        } else {
            Err(WeevilError::ChecksumFailed)
        },
{
    a.lemma_len();
    let b = a.spec_to_bytes();
    assert(b[63] == a.message_kind);
    assert(exists|u: Account| u.spec_to_bytes() == b);
    crate::account::lemma_account_bytes_determine(a, decode_account(b));
}

/// Sessions are dropped only on purpose: an event closes a session exactly
/// when the session is closing. A session reads exactly when it is reading
/// and its socket is readable, and writes exactly when it has a response to
/// write and its socket is writable; a reading session that cannot read
/// waits for its next request.
pub proof fn law_only_closing_sessions_close(status: SessionStatus, readable: bool, writable: bool)
    ensures
        spec_action(status, readable, writable) == EventAction::Close <==> status is Closing,
        spec_action(status, readable, writable) == EventAction::Read <==> status is Reading
            && readable,
        spec_action(status, readable, writable) == EventAction::Write <==> status is Writing
            && writable,
        status is Reading ==> (spec_action(status, readable, writable) == EventAction::Read
            <==> readable),
        status is Reading && !readable ==> spec_action(status, readable, writable)
            == EventAction::Wait,
{
}

} // verus!
