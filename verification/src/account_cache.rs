//! The in-memory account table: a fixed number of slots filled by open
//! addressing with linear probing (wrapping all the way round), and the batch
//! of transfers accepted since the last flush.

use vstd::prelude::*;

use crate::account::{AccountEntry, CheckpointRecord};
use crate::layout::{push_slice, RECORD_SIZE};
use crate::transfer::Transfer;
use crate::{WeevilError, MAX_ACCOUNTS, MAX_BATCH};

verus! {

/// The slot that the `k`-th probe for `acct_id` visits: probing starts at the
/// id modulo the table size and walks forward, wrapping round.
pub open spec fn probe(acct_id: u64, k: int) -> int {
    (acct_id % (MAX_ACCOUNTS as u64) + k) % (MAX_ACCOUNTS as int)
}

/// The slot holds the entry of `acct_id`.
pub open spec fn holds(slot: Option<AccountEntry>, acct_id: u64) -> bool {
    slot matches Some(e) && e.account_id == acct_id
}

/// The first slot, in probe order from the `k`-th probe on, that holds the
/// entry of `acct_id`.
pub open spec fn find_account(slots: Seq<Option<AccountEntry>>, acct_id: u64, k: nat) -> Option<int>
    decreases MAX_ACCOUNTS - k,
{
    if k >= MAX_ACCOUNTS {
        None
    } else if holds(slots[probe(acct_id, k as int)], acct_id) {
        Some(probe(acct_id, k as int))
    } else {
        find_account(slots, acct_id, k + 1)
    }
}

/// The first empty slot, in probe order for `acct_id` from the `k`-th probe on.
pub open spec fn find_free(slots: Seq<Option<AccountEntry>>, acct_id: u64, k: nat) -> Option<int>
    decreases MAX_ACCOUNTS - k,
{
    if k >= MAX_ACCOUNTS {
        None
    } else if slots[probe(acct_id, k as int)] is None {
        Some(probe(acct_id, k as int))
    } else {
        find_free(slots, acct_id, k + 1)
    }
}

/// The entry that a lookup of `acct_id` finds: the first one in its probe order.
pub open spec fn lookup(slots: Seq<Option<AccountEntry>>, acct_id: u64) -> Option<AccountEntry> {
    match find_account(slots, acct_id, 0) {
        Some(i) => slots[i],
        None => None,
    }
}

/// The slots after inserting `entry` into the first empty slot of its probe
/// order; unchanged when no slot is empty.
pub open spec fn spec_insert(slots: Seq<Option<AccountEntry>>, entry: AccountEntry) -> Seq<
    Option<AccountEntry>,
> {
    match find_free(slots, entry.account_id, 0) {
        Some(i) => slots.update(i, Some(entry)),
        None => slots,
    }
}

/// Probes stay inside the table.
pub proof fn lemma_probe_in_range(acct_id: u64, k: int)
    ensures
        0 <= probe(acct_id, k) < MAX_ACCOUNTS,
{
}

/// What a search for `acct_id` finds holds its entry.
pub proof fn lemma_find_account_holds(slots: Seq<Option<AccountEntry>>, acct_id: u64, k: nat)
    ensures
        find_account(slots, acct_id, k) matches Some(i) ==> 0 <= i < MAX_ACCOUNTS && holds(
            slots[i],
            acct_id,
        ),
    decreases MAX_ACCOUNTS - k,
{
    if k < MAX_ACCOUNTS {
        lemma_find_account_holds(slots, acct_id, k + 1);
    }
}

/// How many probes `acct_id` makes before it reaches `slot`.
pub open spec fn probe_distance(acct_id: u64, slot: int) -> int {
    (slot - (acct_id % (MAX_ACCOUNTS as u64)) + MAX_ACCOUNTS) % (MAX_ACCOUNTS as int)
}

/// The `k`-th probe is `k` probes away, and every slot is reached by
/// exactly one probe: the probe order of an id walks the whole table once.
pub proof fn lemma_probe_distance(acct_id: u64, k: int, slot: int)
    requires
        0 <= k < MAX_ACCOUNTS,
        0 <= slot < MAX_ACCOUNTS,
    ensures
        probe_distance(acct_id, probe(acct_id, k)) == k,
        0 <= probe_distance(acct_id, slot) < MAX_ACCOUNTS,
        probe(acct_id, probe_distance(acct_id, slot)) == slot,
{
}

/// A search for `acct_id` from the `k`-th probe finds the first probe that
/// holds its entry, and finds nothing exactly when no later probe does.
pub proof fn lemma_find_account_result(slots: Seq<Option<AccountEntry>>, acct_id: u64, k: nat)
    requires
        k <= MAX_ACCOUNTS,
    ensures
        match find_account(slots, acct_id, k) {
            Some(i) => {
                &&& k <= probe_distance(acct_id, i) < MAX_ACCOUNTS
                &&& probe(acct_id, probe_distance(acct_id, i)) == i
                &&& 0 <= i < MAX_ACCOUNTS
                &&& holds(slots[i], acct_id)
                &&& forall|m: int|
                    k <= m < probe_distance(acct_id, i) ==> !holds(
                        #[trigger] slots[probe(acct_id, m)],
                        acct_id,
                    )
            },
            None => forall|m: int|
                k <= m < MAX_ACCOUNTS ==> !holds(#[trigger] slots[probe(acct_id, m)], acct_id),
        },
    decreases MAX_ACCOUNTS - k,
{
    if k < MAX_ACCOUNTS {
        lemma_find_account_result(slots, acct_id, k + 1);
        lemma_probe_distance(acct_id, k as int, 0);
    }
}

/// A search for an empty slot from the `k`-th probe of `acct_id` finds the
/// first empty probe, and finds nothing exactly when every later probe is
/// taken.
pub proof fn lemma_find_free_result(slots: Seq<Option<AccountEntry>>, acct_id: u64, k: nat)
    requires
        k <= MAX_ACCOUNTS,
    ensures
        match find_free(slots, acct_id, k) {
            Some(i) => {
                &&& k <= probe_distance(acct_id, i) < MAX_ACCOUNTS
                &&& probe(acct_id, probe_distance(acct_id, i)) == i
                &&& 0 <= i < MAX_ACCOUNTS
                &&& slots[i] is None
                &&& forall|m: int|
                    k <= m < probe_distance(acct_id, i) ==> (#[trigger] slots[probe(
                        acct_id,
                        m,
                    )]) is Some
            },
            None => forall|m: int|
                k <= m < MAX_ACCOUNTS ==> (#[trigger] slots[probe(acct_id, m)]) is Some,
        },
    decreases MAX_ACCOUNTS - k,
{
    if k < MAX_ACCOUNTS {
        lemma_find_free_result(slots, acct_id, k + 1);
        lemma_probe_distance(acct_id, k as int, 0);
    }
}

/// The index of the first empty slot in the probe order of `acct_id`.
fn free_index(entries: &[Option<AccountEntry>; MAX_ACCOUNTS], acct_id: u64) -> (r: Option<usize>)
    requires
        entries@.len() == MAX_ACCOUNTS,
    ensures
        r matches Some(i) ==> i < MAX_ACCOUNTS && find_free(entries@, acct_id, 0) == Some(i as int),
        r is None ==> find_free(entries@, acct_id, 0) is None,
{
    let base = (acct_id % (MAX_ACCOUNTS as u64)) as usize;
    let mut i: usize = base;
    while i < base + MAX_ACCOUNTS
        invariant
            entries@.len() == MAX_ACCOUNTS,
            base == acct_id % (MAX_ACCOUNTS as u64),
            base <= i <= base + MAX_ACCOUNTS,
            find_free(entries@, acct_id, 0) == find_free(entries@, acct_id, (i - base) as nat),
        decreases base + MAX_ACCOUNTS - i,
    {
        let j = i % MAX_ACCOUNTS;
        assert(j == probe(acct_id, (i - base) as int));
        if entries[j].is_none() {
            return Some(j);
        }
        i = i + 1;
    }
    None
}

/// The index of the first slot in the probe order of `acct_id` that holds
/// its entry.
fn account_index(entries: &[Option<AccountEntry>; MAX_ACCOUNTS], acct_id: u64) -> (r: Option<usize>)
    requires
        entries@.len() == MAX_ACCOUNTS,
    ensures
        r matches Some(i) ==> i < MAX_ACCOUNTS && find_account(entries@, acct_id, 0) == Some(
            i as int,
        ),
        r is None ==> find_account(entries@, acct_id, 0) is None,
{
    let base = (acct_id % (MAX_ACCOUNTS as u64)) as usize;
    let mut i: usize = base;
    while i < base + MAX_ACCOUNTS
        invariant
            entries@.len() == MAX_ACCOUNTS,
            base == acct_id % (MAX_ACCOUNTS as u64),
            base <= i <= base + MAX_ACCOUNTS,
            find_account(entries@, acct_id, 0) == find_account(
                entries@,
                acct_id,
                (i - base) as nat,
            ),
        decreases base + MAX_ACCOUNTS - i,
    {
        let j = i % MAX_ACCOUNTS;
        assert(j == probe(acct_id, (i - base) as int));
        match &entries[j] {
            Some(ae) => {
                if ae.account_id == acct_id {
                    return Some(j);
                }
            },
            None => {},
        }
        i = i + 1;
    }
    None
}

/// The slots after applying `tx` to the entry in slot `idx`, if any.
pub open spec fn apply_at(slots: Seq<Option<AccountEntry>>, idx: Option<int>, tx: Transfer) -> Seq<
    Option<AccountEntry>,
> {
    match idx {
        Some(i) => slots.update(i, Some(slots[i]->0.spec_apply(tx))),
        None => slots,
    }
}

/// Applying `tx` to the entry in slot `idx`, if any, keeps its balances
/// within `u128`.
pub open spec fn fits_at(slots: Seq<Option<AccountEntry>>, idx: Option<int>, tx: Transfer) -> bool {
    match idx {
        Some(i) => slots[i]->0.apply_fits(tx),
        None => true,
    }
}

/// The slots after committing one transfer: the entries of its debit and
/// credit accounts (both looked up before either changes) each get the
/// transfer applied; an account that is not in the table is skipped.
pub open spec fn flush_one(slots: Seq<Option<AccountEntry>>, tx: Transfer) -> Seq<
    Option<AccountEntry>,
> {
    let di = find_account(slots, tx.debit_account_id, 0);
    let ci = find_account(slots, tx.credit_account_id, 0);
    apply_at(apply_at(slots, di, tx), ci, tx)
}

/// Committing one transfer keeps every balance within `u128`.
pub open spec fn flush_one_fits(slots: Seq<Option<AccountEntry>>, tx: Transfer) -> bool {
    let di = find_account(slots, tx.debit_account_id, 0);
    let ci = find_account(slots, tx.credit_account_id, 0);
    fits_at(slots, di, tx) && fits_at(apply_at(slots, di, tx), ci, tx)
}

/// The slots after committing `txs` in order.
pub open spec fn flush_all(slots: Seq<Option<AccountEntry>>, txs: Seq<Transfer>) -> Seq<
    Option<AccountEntry>,
>
    decreases txs.len(),
{
    if txs.len() == 0 {
        slots
    } else {
        flush_one(flush_all(slots, txs.drop_last()), txs.last())
    }
}

/// Committing `txs` in order keeps every balance within `u128` at every step.
pub open spec fn flush_fits(slots: Seq<Option<AccountEntry>>, txs: Seq<Transfer>) -> bool {
    forall|i: int|
        0 <= i < txs.len() ==> #[trigger] flush_one_fits(flush_all(slots, txs.take(i)), txs[i])
}

proof fn lemma_flush_all_step(slots: Seq<Option<AccountEntry>>, txs: Seq<Transfer>, i: int)
    requires
        0 <= i < txs.len(),
    ensures
        flush_all(slots, txs.take(i + 1)) == flush_one(flush_all(slots, txs.take(i)), txs[i]),
{
    assert(txs.take(i + 1).drop_last() =~= txs.take(i));
}

/// Whether applying `tx` to the entry in slot `idx`, if any, keeps its
/// balances within `u128`.
fn fits_at_index(entries: &[Option<AccountEntry>; MAX_ACCOUNTS], idx: Option<usize>, tx: &Transfer) -> (r: bool)
    requires
        idx matches Some(i) ==> i < entries@.len() && entries@[i as int] is Some,
    ensures
        r == fits_at(entries@, opt_index(idx), *tx),
{
    match idx {
        Some(i) => match &entries[i] {
            Some(ae) => {
                if ae.account_id == tx.debit_account_id {
                    ae.debit_balance.checked_add(tx.amount).is_some()
                } else if ae.account_id == tx.credit_account_id {
                    ae.credit_balance.checked_add(tx.amount).is_some()
                } else {
                    true
                }
            },
            None => true,
        },
        None => true,
    }
}

/// Applies `tx` to the entry in slot `idx`, if any.
fn apply_at_index(entries: &mut [Option<AccountEntry>; MAX_ACCOUNTS], idx: Option<usize>, tx: &Transfer)
    requires
        idx matches Some(i) ==> i < old(entries)@.len() && old(entries)@[i as int] is Some,
        fits_at(old(entries)@, opt_index(idx), *tx),
    ensures
        final(entries)@ == apply_at(
            old(entries)@,
            opt_index(idx),
            *tx,
        ),
{
    if let Some(i) = idx {
        if let Some(entry) = entries[i] {
            let mut ae = entry;
            let _ = ae.apply_transaction(tx);
            entries[i] = Some(ae);
        }
    }
}

/// The index of a search result, as a spec integer.
pub open spec fn opt_index(idx: Option<usize>) -> Option<int> {
    match idx {
        Some(i) => Some(i as int),
        None => None,
    }
}

/// Why replaying a checkpoint or a log stopped early.
#[derive(Debug, Clone, Copy, PartialEq, Eq, Structural)]
pub enum ReplayStop {
    /// A record's checksum does not match its bytes.
    ChecksumFailed,
    /// An account had to be added and the table has no empty slot for it.
    OutOfSpace,
    /// Applying a transfer would take a balance past the largest `u128`.
    Overflow,
}

/// The sum of the debit balances of all entries.
pub open spec fn total_debits(slots: Seq<Option<AccountEntry>>) -> int
    decreases slots.len(),
{
    if slots.len() == 0 {
        0
    } else {
        total_debits(slots.drop_last()) + match slots.last() {
            Some(e) => e.debit_balance as int,
            None => 0,
        }
    }
}

/// The sum of the credit balances of all entries.
pub open spec fn total_credits(slots: Seq<Option<AccountEntry>>) -> int
    decreases slots.len(),
{
    if slots.len() == 0 {
        0
    } else {
        total_credits(slots.drop_last()) + match slots.last() {
            Some(e) => e.credit_balance as int,
            None => 0,
        }
    }
}

proof fn lemma_totals_monotone(slots: Seq<Option<AccountEntry>>, k: int)
    requires
        0 <= k <= slots.len(),
    ensures
        0 <= total_debits(slots.take(k)) <= total_debits(slots),
        0 <= total_credits(slots.take(k)) <= total_credits(slots),
    decreases slots.len(),
{
    if slots.len() > 0 {
        if k == slots.len() {
            assert(slots.take(k) =~= slots);
            lemma_totals_monotone(slots.drop_last(), k - 1);
            assert(slots.drop_last().take(k - 1) =~= slots.drop_last());
        } else {
            lemma_totals_monotone(slots.drop_last(), k);
            assert(slots.drop_last().take(k) =~= slots.take(k));
        }
    } else {
        assert(slots.take(k) =~= slots);
    }
}

/// The bytes of the checkpoint of the table: one record per entry, in slot
/// order.
pub open spec fn checkpoint_image(slots: Seq<Option<AccountEntry>>) -> Seq<u8>
    decreases slots.len(),
{
    if slots.len() == 0 {
        Seq::empty()
    } else {
        checkpoint_image(slots.drop_last()) + match slots.last() {
            Some(e) => CheckpointRecord::spec_from_entry(e).spec_to_bytes(),
            None => Seq::empty(),
        }
    }
}

/// The bytes of a batch of transfers as the log stores them, oldest first.
pub open spec fn transfers_image(txs: Seq<Transfer>) -> Seq<u8>
    decreases txs.len(),
{
    if txs.len() == 0 {
        Seq::empty()
    } else {
        transfers_image(txs.drop_last()) + txs.last().spec_to_bytes()
    }
}

/// The `k`-th 64-byte record of a file.
pub open spec fn record_at(bytes: Seq<u8>, k: int) -> Seq<u8> {
    bytes.subrange(k * RECORD_SIZE, k * RECORD_SIZE + RECORD_SIZE)
}

/// The number of whole records in a file; a partial record at the end is
/// not read.
pub open spec fn record_count(bytes: Seq<u8>) -> nat {
    bytes.len() / (RECORD_SIZE as nat)
}

/// The checkpoint record stored in these 64 bytes.
pub open spec fn decode_checkpoint(b: Seq<u8>) -> CheckpointRecord {
    choose|r: CheckpointRecord| r.spec_to_bytes() == b
}

/// The transfer stored in these 64 bytes.
pub open spec fn decode_transfer(b: Seq<u8>) -> Transfer {
    choose|t: Transfer| t.spec_to_bytes() == b
}

/// Restoring one checkpoint record: a record whose checksum fails stops the
/// replay; otherwise its entry is inserted, and the replay stops when no
/// entry of that account can then be found.
pub open spec fn checkpoint_step(slots: Seq<Option<AccountEntry>>, rec: CheckpointRecord) -> (
    Seq<Option<AccountEntry>>,
    Option<ReplayStop>,
) {
    if !rec.checksum_ok() {
        (slots, Some(ReplayStop::ChecksumFailed))
    } else {
        let entry = AccountEntry {
            account_id: rec.account_id,
            debit_balance: rec.debit_balance,
            credit_balance: rec.credit_balance,
        };
        let next = spec_insert(slots, entry);
        if lookup(next, rec.account_id) is None {
            (next, Some(ReplayStop::OutOfSpace))
        } else {
            (next, None)
        }
    }
}

/// Restoring the records of a checkpoint file from the `k`-th on.
#[verifier::opaque]
pub open spec fn replay_checkpoint_from(slots: Seq<Option<AccountEntry>>, bytes: Seq<u8>, k: nat) -> (
    Seq<Option<AccountEntry>>,
    Option<ReplayStop>,
)
    decreases record_count(bytes) - k,
{
    if k >= record_count(bytes) {
        (slots, None)
    } else {
        let (next, stop) = checkpoint_step(slots, decode_checkpoint(record_at(bytes, k as int)));
        if stop is Some {
            (next, stop)
        } else {
            replay_checkpoint_from(next, bytes, k + 1)
        }
    }
}

/// Replaying one side of a logged transfer: the entry of `acct_id`, if there
/// is one, gets the transfer applied; otherwise `fresh` is inserted, and the
/// replay stops when no entry of that account can then be found.
pub open spec fn replay_side(
    slots: Seq<Option<AccountEntry>>,
    acct_id: u64,
    tx: Transfer,
    fresh: AccountEntry,
) -> (Seq<Option<AccountEntry>>, Option<ReplayStop>) {
    match find_account(slots, acct_id, 0) {
        Some(i) => if slots[i]->0.apply_fits(tx) {
            (apply_at(slots, Some(i), tx), None)
        } else {
            (slots, Some(ReplayStop::Overflow))
        },
        None => {
            let next = spec_insert(slots, fresh);
            if lookup(next, acct_id) is None {
                (next, Some(ReplayStop::OutOfSpace))
            } else {
                (next, None)
            }
        },
    }
}

/// Replaying one logged transfer: a transfer whose checksum fails stops the
/// replay; otherwise the debit side and then the credit side are replayed,
/// an account met for the first time starting with the transferred amount on
/// that side.
#[verifier::opaque]
pub open spec fn transfer_step(slots: Seq<Option<AccountEntry>>, tx: Transfer) -> (
    Seq<Option<AccountEntry>>,
    Option<ReplayStop>,
) {
    if !tx.checksum_ok() {
        (slots, Some(ReplayStop::ChecksumFailed))
    } else {
        let debit_fresh = AccountEntry {
            account_id: tx.debit_account_id,
            debit_balance: tx.amount,
            credit_balance: 0,
        };
        let credit_fresh = AccountEntry {
            account_id: tx.credit_account_id,
            debit_balance: 0,
            credit_balance: tx.amount,
        };
        let (s1, stop1) = replay_side(slots, tx.debit_account_id, tx, debit_fresh);
        if stop1 is Some {
            (s1, stop1)
        } else {
            replay_side(s1, tx.credit_account_id, tx, credit_fresh)
        }
    }
}

/// Replaying the transfers of a log file from the `k`-th on.
#[verifier::opaque]
pub open spec fn replay_wal_from(slots: Seq<Option<AccountEntry>>, bytes: Seq<u8>, k: nat) -> (
    Seq<Option<AccountEntry>>,
    Option<ReplayStop>,
)
    decreases record_count(bytes) - k,
{
    if k >= record_count(bytes) {
        (slots, None)
    } else {
        let (next, stop) = transfer_step(slots, decode_transfer(record_at(bytes, k as int)));
        if stop is Some {
            (next, stop)
        } else {
            replay_wal_from(next, bytes, k + 1)
        }
    }
}

/// The outcome of a replay as a result.
pub open spec fn stop_result(stop: Option<ReplayStop>) -> Result<(), ReplayStop> {
    match stop {
        Some(s) => Err(s),
        None => Ok(()),
    }
}

/// The account table and the batch of transfers waiting for the next flush,
/// both in fixed arrays: nothing grows on the heap.
pub struct AccountEntryCache {
    entries: [Option<AccountEntry>; MAX_ACCOUNTS],
    pending_transactions: [Transfer; MAX_BATCH],
    pt_len: usize,
}

impl AccountEntryCache {
    /// The account slots, in slot order.
    pub closed spec fn slots(self) -> Seq<Option<AccountEntry>> {
        self.entries@
    }

    /// The transfers accepted since the last flush, oldest first.
    pub closed spec fn pending(self) -> Seq<Transfer> {
        self.pending_transactions@.take(self.pt_len as int)
    }

    /// The table has its fixed number of slots and the batch is not over full.
    pub open spec fn wf(self) -> bool {
        &&& self.slots().len() == MAX_ACCOUNTS
        &&& self.pending().len() <= MAX_BATCH
        &&& self.batch_wf()
    }

    /// The count of pending transfers fits the batch array.
    pub closed spec fn batch_wf(self) -> bool {
        &&& self.pt_len <= MAX_BATCH
        &&& self.pending_transactions@.len() == MAX_BATCH
        &&& self.entries@.len() == MAX_ACCOUNTS
    }

    /// Every entry sits behind an unbroken run of taken slots in its probe
    /// order (see `clustered`).
    pub open spec fn is_clustered(self) -> bool {
        clustered(self.slots())
    }

    /// Every pending transfer names two different accounts, both in the
    /// table.
    pub open spec fn pending_ok(self) -> bool {
        forall|i: int|
            0 <= i < self.pending().len() ==> {
                &&& (#[trigger] self.pending()[i]).debit_account_id
                    != self.pending()[i].credit_account_id
                &&& lookup(self.slots(), self.pending()[i].debit_account_id) is Some
                &&& lookup(self.slots(), self.pending()[i].credit_account_id) is Some
            }
    }

    /// An empty table with an empty batch.
    pub fn new() -> (c: Self)
        ensures
            c.wf(),
            c.is_clustered(),
            c.slots() == Seq::new(MAX_ACCOUNTS as nat, |i: int| None::<AccountEntry>),
            c.pending() == Seq::<Transfer>::empty(),
    {
        let entries: [Option<AccountEntry>; MAX_ACCOUNTS] = [None; 257];
        let blank = Transfer {
            amount: 0,
            debit_account_id: 0,
            credit_account_id: 0,
            checksum: 0,
            _pad: [0u8; 27],
            message_kind: 0,
        };
        let pending_transactions: [Transfer; MAX_BATCH] = [blank; 1000];
        let c = AccountEntryCache { entries, pending_transactions, pt_len: 0 };
        proof {
            broadcast use vstd::array::group_array_axioms;

            assert(c.slots() =~= Seq::new(MAX_ACCOUNTS as nat, |i: int| None::<AccountEntry>));
            assert(c.pending() =~= Seq::<Transfer>::empty());
        }
        c
    }

    /// The index of the first empty slot in the probe order of `acct_id`.
    fn find_free_slot(&self, acct_id: u64) -> (r: Option<usize>)
        requires
            self.wf(),
        ensures
            r matches Some(i) ==> i < MAX_ACCOUNTS && find_free(self.slots(), acct_id, 0) == Some(
                i as int,
            ),
            r is None ==> find_free(self.slots(), acct_id, 0) is None,
    {
        free_index(&self.entries, acct_id)
    }

    /// The index of the first slot in the probe order of `acct_id` that
    /// holds its entry.
    fn get_account_idx(&self, acct_id: u64) -> (r: Option<usize>)
        requires
            self.wf(),
        ensures
            r matches Some(i) ==> i < MAX_ACCOUNTS && find_account(self.slots(), acct_id, 0) == Some(
                i as int,
            ),
            r is None ==> find_account(self.slots(), acct_id, 0) is None,
    {
        account_index(&self.entries, acct_id)
    }

    /// The entry of `acct_id`: the first one met in its probe order.
    pub fn get(&self, acct_id: u64) -> (r: Option<&AccountEntry>)
        requires
            self.wf(),
        ensures
            match r {
                Some(e) => lookup(self.slots(), acct_id) == Some(*e),
                None => lookup(self.slots(), acct_id) is None,
            },
    {
        if let Some(idx) = self.get_account_idx(acct_id) {
            return self.entries[idx].as_ref();
        }
        None
    }

    /// The entry of `acct_id` for changing in place: the first one met in its
    /// probe order.
    pub fn get_mut(&mut self, acct_id: u64) -> (r: Option<&mut AccountEntry>)
        requires
            old(self).wf(),
        ensures
            r is Some ==> {
                let i = find_account(old(self).slots(), acct_id, 0)->0;
                &&& find_account(old(self).slots(), acct_id, 0) is Some
                &&& old(self).slots()[i] == Some(*r->0)
                &&& final(self).slots() == old(self).slots().update(i, Some(*final(r->0)))
                &&& final(self).pending() == old(self).pending()
            },
            r is None ==> lookup(old(self).slots(), acct_id) is None && *final(self) == *old(
                self,
            ),
    {
        if let Some(idx) = self.get_account_idx(acct_id) {
            proof {
                lemma_find_account_holds(self.slots(), acct_id, 0);
            }
            match &mut self.entries[idx] {
                Some(ae) => {
                    return Some(ae);
                },
                None => {
                    return None;
                },
            }
        }
        None
    }

    /// Whether the table has an empty slot for `acct_id`.
    pub fn has_capacity(&self, acct_id: u64) -> (r: bool)
        requires
            self.wf(),
        ensures
            r == find_free(self.slots(), acct_id, 0) is Some,
    {
        self.find_free_slot(acct_id).is_some()
    }

    /// Puts `acct_entry` into the first empty slot of its probe order, if
    /// there is one, and returns what a lookup of its id then finds.
    pub fn insert(&mut self, acct_entry: AccountEntry) -> (r: Option<&AccountEntry>)
        requires
            old(self).wf(),
        ensures
            final(self).wf(),
            old(self).is_clustered() ==> final(self).is_clustered(),
            final(self).slots() == spec_insert(old(self).slots(), acct_entry),
            final(self).pending() == old(self).pending(),
            match r {
                Some(e) => lookup(final(self).slots(), acct_entry.account_id) == Some(*e),
                None => lookup(final(self).slots(), acct_entry.account_id) is None,
            },
    {
        let id = acct_entry.account_id;
        proof {
            if old(self).is_clustered() {
                law_insert_keeps_clustered(self.slots(), acct_entry);
            }
        }
        if let Some(idx) = self.find_free_slot(id) {
            self.entries[idx] = Some(acct_entry);
        }
        self.get(id)
    }

    /// Adds `tx` to the batch of pending transfers, unless the batch is full.
    pub fn add_transaction(&mut self, tx: Transfer) -> (r: Result<(), WeevilError>)
        requires
            old(self).wf(),
        ensures
            final(self).wf(),
            final(self).slots() == old(self).slots(),
            r is Ok <==> old(self).pending().len() < MAX_BATCH,
            r is Ok ==> final(self).pending() == old(self).pending().push(tx),
            r is Err ==> final(self).pending() == old(self).pending(),
            r matches Err(e) ==> e is PendingTransactionsFull,
    {
        if self.pt_len >= MAX_BATCH {
            return Err(WeevilError::PendingTransactionsFull);
        }
        let ghost before = self.pending();
        self.pending_transactions[self.pt_len] = tx;
        self.pt_len = self.pt_len + 1;
        assert(self.pending() =~= before.push(tx));
        Ok(())
    }
    /// Commits the batch: applies every pending transfer, oldest first, to
    /// the entries of its debit and credit accounts (an account missing from
    /// the table is skipped), then empties the batch. The caller writes the
    /// batch to the log before committing it.
    pub fn flush(&mut self)
        requires
            old(self).wf(),
            flush_fits(old(self).slots(), old(self).pending()),
        ensures
            final(self).wf(),
            old(self).is_clustered() ==> final(self).is_clustered(),
            final(self).slots() == flush_all(old(self).slots(), old(self).pending()),
            old(self).pending_ok() ==> total_debits(final(self).slots()) - total_credits(
                final(self).slots(),
            ) == total_debits(old(self).slots()) - total_credits(old(self).slots()),
            final(self).pending() == Seq::<Transfer>::empty(),
    {
        let ghost start = self.slots();
        let mut i: usize = 0;
        while i < self.pt_len
            invariant
                self.wf(),
                self.pending() == old(self).pending(),
                start == old(self).slots(),
                flush_fits(start, self.pending()),
                i <= self.pending().len(),
                self.slots() == flush_all(start, self.pending().take(i as int)),
            decreases self.pending().len() - i,
        {
            let tx = self.pending_transactions[i];
            let ghost before = self.slots();
            let debit_idx = account_index(&self.entries, tx.debit_account_id);
            let credit_idx = account_index(&self.entries, tx.credit_account_id);
            proof {
                lemma_find_account_holds(before, tx.debit_account_id, 0);
                lemma_find_account_holds(before, tx.credit_account_id, 0);
                assert(flush_one_fits(flush_all(start, self.pending().take(i as int)), self.pending()[i as int]));
                lemma_flush_all_step(start, self.pending(), i as int);
            }
            apply_at_index(&mut self.entries, debit_idx, &tx);
            apply_at_index(&mut self.entries, credit_idx, &tx);
            i = i + 1;
        }
        proof {
            assert(self.pending().take(self.pending().len() as int) =~= self.pending());
            if old(self).pending_ok() {
                law_flush_keeps_balance(start, self.pending());
            }
            if old(self).is_clustered() {
                lemma_flush_all_keeps_shape(start, self.pending());
                lemma_same_ids_keep_clustered(start, self.slots());
            }
        }
        self.pt_len = 0;
        assert(self.pending() =~= Seq::<Transfer>::empty());
    }

    /// Whether committing the batch keeps every balance within `u128`; it is
    /// checked on a copy of the table, which stays as it is.
    pub fn flush_fits(&self) -> (r: bool)
        requires
            self.wf(),
        ensures
            r == flush_fits(self.slots(), self.pending()),
    {
        let mut copy: [Option<AccountEntry>; MAX_ACCOUNTS] = self.entries;
        let ghost start = self.slots();
        let mut i: usize = 0;
        while i < self.pt_len
            invariant
                self.wf(),
                start == self.slots(),
                i <= self.pending().len(),
                copy@.len() == MAX_ACCOUNTS,
                copy@ == flush_all(start, self.pending().take(i as int)),
                forall|j: int|
                    0 <= j < i ==> #[trigger] flush_one_fits(
                        flush_all(start, self.pending().take(j)),
                        self.pending()[j],
                    ),
            decreases self.pending().len() - i,
        {
            let tx = self.pending_transactions[i];
            let ghost before = copy@;
            let debit_idx = account_index(&copy, tx.debit_account_id);
            let credit_idx = account_index(&copy, tx.credit_account_id);
            proof {
                lemma_find_account_holds(before, tx.debit_account_id, 0);
                lemma_find_account_holds(before, tx.credit_account_id, 0);
                lemma_flush_all_step(start, self.pending(), i as int);
            }
            if !fits_at_index(&copy, debit_idx, &tx) {
                assert(!flush_one_fits(flush_all(start, self.pending().take(i as int)), self.pending()[i as int]));
                return false;
            }
            apply_at_index(&mut copy, debit_idx, &tx);
            if !fits_at_index(&copy, credit_idx, &tx) {
                assert(!flush_one_fits(flush_all(start, self.pending().take(i as int)), self.pending()[i as int]));
                return false;
            }
            apply_at_index(&mut copy, credit_idx, &tx);
            i = i + 1;
        }
        true
    }
    /// The number of transfers waiting for the next flush.
    pub fn pending_len(&self) -> (n: usize)
        requires
            self.wf(),
        ensures
            n == self.pending().len(),
    {
        self.pt_len
    }

    /// The bytes that the log must hold before the batch is committed: the
    /// pending transfers, oldest first.
    pub fn pending_bytes(&self) -> (bytes: Vec<u8>)
        requires
            self.wf(),
        ensures
            bytes@ == transfers_image(self.pending()),
    {
        let mut bytes: Vec<u8> = Vec::new();
        let mut i: usize = 0;
        while i < self.pt_len
            invariant
                self.wf(),
                i <= self.pending().len(),
                bytes@ == transfers_image(self.pending().take(i as int)),
            decreases self.pending().len() - i,
        {
            let tx_bytes = self.pending_transactions[i].to_bytes();
            push_slice(&mut bytes, tx_bytes.as_slice());
            proof {
                assert(self.pending().take(i + 1).drop_last() =~= self.pending().take(i as int));
            }
            i = i + 1;
        }
        assert(self.pending().take(self.pending().len() as int) =~= self.pending());
        bytes
    }

    /// The sums of all debit balances and of all credit balances, or `None`
    /// when either sum passes the largest `u128`.
    pub fn ledger_totals(&self) -> (r: Option<(u128, u128)>)
        requires
            self.wf(),
        ensures
            r is Some <==> total_debits(self.slots()) <= u128::MAX && total_credits(self.slots())
                <= u128::MAX,
            r matches Some((d, c)) ==> d == total_debits(self.slots()) && c == total_credits(
                self.slots(),
            ),
    {
        let mut debit_sum: u128 = 0;
        let mut credit_sum: u128 = 0;
        let mut k: usize = 0;
        while k < MAX_ACCOUNTS
            invariant
                self.wf(),
                k <= self.slots().len(),
                debit_sum == total_debits(self.slots().take(k as int)),
                credit_sum == total_credits(self.slots().take(k as int)),
            decreases self.slots().len() - k,
        {
            proof {
                assert(self.slots().take(k + 1).drop_last() =~= self.slots().take(k as int));
                lemma_totals_monotone(self.slots(), k + 1);
            }
            match &self.entries[k] {
                Some(ae) => {
                    match debit_sum.checked_add(ae.debit_balance) {
                        Some(d) => {
                            debit_sum = d;
                        },
                        None => {
                            return None;
                        },
                    }
                    match credit_sum.checked_add(ae.credit_balance) {
                        Some(c) => {
                            credit_sum = c;
                        },
                        None => {
                            return None;
                        },
                    }
                },
                None => {},
            }
            k = k + 1;
        }
        assert(self.slots().take(self.slots().len() as int) =~= self.slots());
        Some((debit_sum, credit_sum))
    }

    /// The bytes of a checkpoint of the table: the record of each entry, in
    /// slot order.
    pub fn checkpoint_bytes(&self) -> (bytes: Vec<u8>)
        requires
            self.wf(),
        ensures
            bytes@ == checkpoint_image(self.slots()),
    {
        let mut bytes: Vec<u8> = Vec::new();
        let mut k: usize = 0;
        while k < MAX_ACCOUNTS
            invariant
                self.wf(),
                k <= self.slots().len(),
                bytes@ == checkpoint_image(self.slots().take(k as int)),
            decreases self.slots().len() - k,
        {
            proof {
                assert(self.slots().take(k + 1).drop_last() =~= self.slots().take(k as int));
            }
            match &self.entries[k] {
                Some(ae) => {
                    let cr = CheckpointRecord::from(ae);
                    let cr_bytes = cr.to_bytes();
                    push_slice(&mut bytes, cr_bytes.as_slice());
                },
                None => {
                    assert(bytes@ =~= bytes@ + Seq::<u8>::empty());
                },
            }
            k = k + 1;
        }
        assert(self.slots().take(self.slots().len() as int) =~= self.slots());
        bytes
    }

    /// Replays one side of a logged transfer.
    fn replay_side(&mut self, acct_id: u64, tx: &Transfer, fresh: AccountEntry) -> (r: Result<(), ReplayStop>)
        requires
            old(self).wf(),
            fresh.account_id == acct_id,
        ensures
            final(self).wf(),
            old(self).is_clustered() ==> final(self).is_clustered(),
            final(self).pending() == old(self).pending(),
            ({
                let (s, stop) = replay_side(old(self).slots(), acct_id, *tx, fresh);
                final(self).slots() == s && r == stop_result(stop)
            }),
    {
        match self.get_account_idx(acct_id) {
            Some(idx) => {
                proof {
                    lemma_find_account_holds(self.slots(), acct_id, 0);
                }
                if !fits_at_index(&self.entries, Some(idx), tx) {
                    return Err(ReplayStop::Overflow);
                }
                let ghost before = self.slots();
                apply_at_index(&mut self.entries, Some(idx), tx);
                proof {
                    lemma_apply_at_keeps_ids(before, Some(idx as int), *tx);
                    if old(self).is_clustered() {
                        lemma_same_ids_keep_clustered(before, self.slots());
                    }
                }
                Ok(())
            },
            None => {
                if self.insert(fresh).is_none() {
                    return Err(ReplayStop::OutOfSpace);
                }
                Ok(())
            },
        }
    }

    /// Replays a write-ahead log: each whole 64-byte record is read as a
    /// transfer, its checksum checked, and its debit side and then its credit
    /// side applied to the table, an account met for the first time being
    /// added with the transferred amount. A partial record at the end is not
    /// read. The replay stops at the first failure, keeping what it did so far.
    pub fn replay_wal(&mut self, wal: &[u8]) -> (r: Result<(), ReplayStop>)
        requires
            old(self).wf(),
        ensures
            final(self).wf(),
            old(self).is_clustered() ==> final(self).is_clustered(),
            final(self).pending() == old(self).pending(),
            ({
                let (s, stop) = replay_wal_from(old(self).slots(), wal@, 0);
                final(self).slots() == s && r == stop_result(stop)
            }),
            r is Ok && records_two_sided(wal@) ==> imbalance(final(self).slots()) == imbalance(
                old(self).slots(),
            ),
    {
        let n = wal.len() / RECORD_SIZE;
        let mut k: usize = 0;
        proof {
            if records_two_sided(wal@) {
                law_replay_keeps_balance(old(self).slots(), wal@, 0);
            }
            reveal(replay_wal_from);
        }
        while k < n
            invariant
                self.wf(),
                old(self).is_clustered() ==> self.is_clustered(),
                self.pending() == old(self).pending(),
                n == record_count(wal@),
                n == wal.len() / 64,
                records_two_sided(wal@) && replay_wal_from(old(self).slots(), wal@, 0).1 is None
                    ==> imbalance(replay_wal_from(old(self).slots(), wal@, 0).0) == imbalance(
                    old(self).slots(),
                ),
                k <= n,
                replay_wal_from(old(self).slots(), wal@, 0) == replay_wal_from(
                    self.slots(),
                    wal@,
                    k as nat,
                ),
            decreases n - k,
        {
            assert(k * 64 + 64 <= wal.len()) by (nonlinear_arith)
                requires
                    k < n,
                    n == wal.len() / 64,
            ;
            let start = k * RECORD_SIZE;
            let chunk = vstd::slice::slice_subrange(wal, start, start + RECORD_SIZE);
            let tx = Transfer::from_bytes(chunk);
            proof {
                reveal(replay_wal_from);
                assert(chunk@ == record_at(wal@, k as int));
                crate::transfer::lemma_transfer_bytes_determine(tx, decode_transfer(chunk@));
            }
            proof {
                reveal(transfer_step);
            }
            if tx.verify().is_err() {
                return Err(ReplayStop::ChecksumFailed);
            }
            let debit_fresh = AccountEntry::new(tx.debit_account_id, tx.amount, 0);
            match self.replay_side(tx.debit_account_id, &tx, debit_fresh) {
                Ok(()) => {},
                Err(stop) => {
                    return Err(stop);
                },
            }
            let credit_fresh = AccountEntry::new(tx.credit_account_id, 0, tx.amount);
            match self.replay_side(tx.credit_account_id, &tx, credit_fresh) {
                Ok(()) => {},
                Err(stop) => {
                    return Err(stop);
                },
            }
            k = k + 1;
        }
        Ok(())
    }

    /// Restores the entries of a checkpoint file: each whole 64-byte record
    /// is read, its checksum checked, and its entry inserted. A partial record
    /// at the end is not read. The replay stops at the first failure, keeping
    /// what it did so far.
    pub fn replay_checkpoint(&mut self, checkpoint: &[u8]) -> (r: Result<(), ReplayStop>)
        requires
            old(self).wf(),
        ensures
            final(self).wf(),
            old(self).is_clustered() ==> final(self).is_clustered(),
            final(self).pending() == old(self).pending(),
            ({
                let (s, stop) = replay_checkpoint_from(old(self).slots(), checkpoint@, 0);
                final(self).slots() == s && r == stop_result(stop)
            }),
    {
        let n = checkpoint.len() / RECORD_SIZE;
        let mut k: usize = 0;
        while k < n
            invariant
                self.wf(),
                old(self).is_clustered() ==> self.is_clustered(),
                self.pending() == old(self).pending(),
                n == record_count(checkpoint@),
                n == checkpoint.len() / 64,
                k <= n,
                replay_checkpoint_from(old(self).slots(), checkpoint@, 0) == replay_checkpoint_from(
                    self.slots(),
                    checkpoint@,
                    k as nat,
                ),
            decreases n - k,
        {
            assert(k * 64 + 64 <= checkpoint.len()) by (nonlinear_arith)
                requires
                    k < n,
                    n == checkpoint.len() / 64,
            ;
            let start = k * RECORD_SIZE;
            let chunk = vstd::slice::slice_subrange(
                checkpoint,
                start,
                start + RECORD_SIZE,
            );
            let cr = CheckpointRecord::from_bytes(chunk);
            proof {
                reveal(replay_checkpoint_from);
                assert(chunk@ == record_at(checkpoint@, k as int));
                crate::account::lemma_checkpoint_bytes_determine(cr, decode_checkpoint(chunk@));
            }
            if cr.verify().is_err() {
                return Err(ReplayStop::ChecksumFailed);
            }
            let acct_entry = AccountEntry::new(cr.account_id, cr.debit_balance, cr.credit_balance);
            if self.insert(acct_entry).is_none() {
                return Err(ReplayStop::OutOfSpace);
            }
            k = k + 1;
        }
        proof {
            reveal(replay_checkpoint_from);
        }
        Ok(())
    }
}

impl Default for AccountEntryCache {
    fn default() -> (c: Self)
        ensures
            c.wf(),
            c.is_clustered(),
            c.slots() == Seq::new(MAX_ACCOUNTS as nat, |i: int| None::<AccountEntry>),
            c.pending() == Seq::<Transfer>::empty(),
    {
        Self::new()
    }
}

} // verus!

verus! {

/// Two tables in which the same slots hold entries of `acct_id` give the same
/// search result for it.
pub proof fn lemma_find_account_frame(
    s: Seq<Option<AccountEntry>>,
    t: Seq<Option<AccountEntry>>,
    acct_id: u64,
    k: nat,
)
    requires
        forall|p: int| 0 <= p < MAX_ACCOUNTS ==> holds(s[p], acct_id) == holds(t[p], acct_id),
    ensures
        find_account(s, acct_id, k) == find_account(t, acct_id, k),
    decreases MAX_ACCOUNTS - k,
{
    if k < MAX_ACCOUNTS {
        lemma_probe_in_range(acct_id, k as int);
        lemma_find_account_frame(s, t, acct_id, k + 1);
    }
}

/// Every probe order meets an empty slot exactly when the table has one, so
/// whether there is room does not depend on the account.
pub proof fn law_capacity_is_shared(slots: Seq<Option<AccountEntry>>, a: u64, b: u64)
    requires
        slots.len() == MAX_ACCOUNTS,
    ensures
        find_free(slots, a, 0) is Some <==> exists|p: int| 0 <= p < MAX_ACCOUNTS && slots[p] is None,
        find_free(slots, a, 0) is Some <==> find_free(slots, b, 0) is Some,
{
    lemma_find_free_result(slots, a, 0);
    lemma_find_free_result(slots, b, 0);
    if exists|p: int| 0 <= p < MAX_ACCOUNTS && slots[p] is None {
        let p = choose|p: int| 0 <= p < MAX_ACCOUNTS && slots[p] is None;
        lemma_probe_distance(a, 0, p);
        lemma_probe_distance(b, 0, p);
        assert(slots[probe(a, probe_distance(a, p))] is None);
        assert(slots[probe(b, probe_distance(b, p))] is None);
    }
}

/// Inserting an account that is not in the table, when there is room, makes
/// a lookup of it find exactly the inserted entry, and leaves what a lookup
/// of every other account finds unchanged.
pub proof fn law_insert_new_account(slots: Seq<Option<AccountEntry>>, entry: AccountEntry)
    requires
        slots.len() == MAX_ACCOUNTS,
        lookup(slots, entry.account_id) is None,
        find_free(slots, entry.account_id, 0) is Some,
    ensures
        lookup(spec_insert(slots, entry), entry.account_id) == Some(entry),
        forall|other: u64|
            other != entry.account_id ==> #[trigger] lookup(spec_insert(slots, entry), other)
                == lookup(slots, other),
{
    let id = entry.account_id;
    let f = find_free(slots, id, 0)->0;
    lemma_find_free_result(slots, id, 0);
    let t = spec_insert(slots, entry);
    assert(t == slots.update(f, Some(entry)));
    lemma_find_account_result(slots, id, 0);
    lemma_find_account_result(t, id, 0);
    lemma_probe_distance(id, 0, f);
    if find_account(slots, id, 0) is Some {
        lemma_find_account_holds(slots, id, 0);
    }
    // In the old table no slot holds `id`; in the new one only `f` does.
    assert(forall|p: int| 0 <= p < MAX_ACCOUNTS ==> !holds(#[trigger] slots[p], id)) by {
        assert forall|p: int| 0 <= p < MAX_ACCOUNTS implies !holds(#[trigger] slots[p], id) by {
            lemma_probe_distance(id, 0, p);
            assert(slots[probe(id, probe_distance(id, p))] == slots[p]);
        }
    }
    assert(holds(t[probe(id, probe_distance(id, f))], id));
    assert forall|other: u64| other != id implies #[trigger] lookup(t, other) == lookup(slots, other) by {
        assert forall|p: int| 0 <= p < MAX_ACCOUNTS implies holds(slots[p], other) == holds(
            t[p],
            other,
        ) by {}
        lemma_find_account_frame(slots, t, other, 0);
        lemma_find_account_holds(slots, other, 0);
    }
}

/// The entries of every slot sit behind an unbroken run of taken slots in
/// their own probe order: nothing is ever removed, so the first empty slot of
/// an account's probe order lies beyond its entry.
pub open spec fn clustered(slots: Seq<Option<AccountEntry>>) -> bool {
    forall|p: int, m: int|
        #![trigger slots[p], slots[probe(slots[p]->0.account_id, m)]]
        0 <= p < MAX_ACCOUNTS && slots[p] is Some && 0 <= m < probe_distance(
            slots[p]->0.account_id,
            p,
        ) ==> slots[probe(slots[p]->0.account_id, m)] is Some
}

/// An empty table is clustered.
pub proof fn law_empty_is_clustered()
    ensures
        clustered(Seq::new(MAX_ACCOUNTS as nat, |i: int| None::<AccountEntry>)),
{
}

/// Inserting keeps the table clustered.
pub proof fn law_insert_keeps_clustered(slots: Seq<Option<AccountEntry>>, entry: AccountEntry)
    requires
        slots.len() == MAX_ACCOUNTS,
        clustered(slots),
    ensures
        clustered(spec_insert(slots, entry)),
{
    let id = entry.account_id;
    lemma_find_free_result(slots, id, 0);
    if let Some(f) = find_free(slots, id, 0) {
        let t = slots.update(f, Some(entry));
        assert forall|p: int, m: int|
            0 <= p < MAX_ACCOUNTS && t[p] is Some && 0 <= m < probe_distance(t[p]->0.account_id, p)
                implies #[trigger] t[probe(t[p]->0.account_id, m)] is Some by {
            let q = probe(t[p]->0.account_id, m);
            lemma_probe_in_range(t[p]->0.account_id, m);
            if p == f {
                assert(slots[probe(id, m)] is Some);
            } else {
                assert(slots[p] is Some);
                assert(slots[probe(slots[p]->0.account_id, m)] is Some);
            }
        }
    }
}

/// Changing balances, but not which slots hold which accounts, keeps the
/// table clustered.
pub proof fn lemma_same_ids_keep_clustered(s: Seq<Option<AccountEntry>>, t: Seq<Option<AccountEntry>>)
    requires
        s.len() == MAX_ACCOUNTS,
        t.len() == MAX_ACCOUNTS,
        clustered(s),
        forall|p: int|
            0 <= p < MAX_ACCOUNTS ==> (#[trigger] t[p] is Some) == (s[p] is Some) && (t[p] is Some
                ==> t[p]->0.account_id == s[p]->0.account_id),
    ensures
        clustered(t),
{
    assert forall|p: int, m: int|
        0 <= p < MAX_ACCOUNTS && t[p] is Some && 0 <= m < probe_distance(t[p]->0.account_id, p)
            implies #[trigger] t[probe(t[p]->0.account_id, m)] is Some by {
        lemma_probe_in_range(t[p]->0.account_id, m);
        assert(s[p] is Some);
        assert(s[probe(s[p]->0.account_id, m)] is Some);
    }
}

/// In a clustered table, inserting an entry for an account that is already
/// there changes nothing that a lookup of that account finds: the earlier
/// entry comes first in the probe order.
pub proof fn law_insert_existing_account(slots: Seq<Option<AccountEntry>>, entry: AccountEntry)
    requires
        slots.len() == MAX_ACCOUNTS,
        clustered(slots),
        lookup(slots, entry.account_id) is Some,
    ensures
        lookup(spec_insert(slots, entry), entry.account_id) == lookup(slots, entry.account_id),
{
    let id = entry.account_id;
    lemma_find_account_result(slots, id, 0);
    lemma_find_free_result(slots, id, 0);
    let i = find_account(slots, id, 0)->0;
    let di = probe_distance(id, i);
    if let Some(f) = find_free(slots, id, 0) {
        let t = slots.update(f, Some(entry));
        let df = probe_distance(id, f);
        // Every probe up to the entry is taken, so the empty slot comes later.
        assert(slots[i] is Some);
        assert(df > di) by {
            if df <= di {
                if df < di {
                    assert(slots[probe(slots[i]->0.account_id, df)] is Some);
                }
            }
        }
        assert forall|m: int| 0 <= m < di implies !holds(#[trigger] t[probe(id, m)], id) by {
            lemma_probe_distance(id, m, 0);
            lemma_probe_in_range(id, m);
            assert(!holds(slots[probe(id, m)], id));
        }
        lemma_find_account_result(t, id, 0);
        lemma_probe_in_range(id, di);
        lemma_probe_distance(id, 0, i);
        assert(holds(t[probe(id, di)], id));
    }
}

} // verus!

verus! {

/// The debit balance in a slot, zero when it is empty.
pub open spec fn slot_debit(slot: Option<AccountEntry>) -> int {
    match slot {
        Some(e) => e.debit_balance as int,
        None => 0,
    }
}

/// The credit balance in a slot, zero when it is empty.
pub open spec fn slot_credit(slot: Option<AccountEntry>) -> int {
    match slot {
        Some(e) => e.credit_balance as int,
        None => 0,
    }
}

/// Replacing one slot changes the totals by what the slot held and what it
/// holds now.
pub proof fn lemma_totals_update(s: Seq<Option<AccountEntry>>, i: int, v: Option<AccountEntry>)
    requires
        0 <= i < s.len(),
    ensures
        total_debits(s.update(i, v)) == total_debits(s) - slot_debit(s[i]) + slot_debit(v),
        total_credits(s.update(i, v)) == total_credits(s) - slot_credit(s[i]) + slot_credit(v),
    decreases s.len(),
{
    let t = s.update(i, v);
    if i == s.len() - 1 {
        assert(t.drop_last() =~= s.drop_last());
    } else {
        lemma_totals_update(s.drop_last(), i, v);
        assert(t.drop_last() =~= s.drop_last().update(i, v));
    }
}

/// Applying transfers changes balances, never which slots hold which
/// accounts.
pub proof fn lemma_apply_at_keeps_ids(s: Seq<Option<AccountEntry>>, idx: Option<int>, tx: Transfer)
    requires
        idx matches Some(i) ==> 0 <= i < s.len() && s[i] is Some,
    ensures
        apply_at(s, idx, tx).len() == s.len(),
        forall|p: int|
            0 <= p < s.len() ==> (#[trigger] apply_at(s, idx, tx)[p] is Some) == (s[p] is Some) && (
            s[p] is Some ==> apply_at(s, idx, tx)[p]->0.account_id == s[p]->0.account_id),
{
}

/// Committing a transfer leaves every account where it was.
pub proof fn law_flush_one_keeps_ids(s: Seq<Option<AccountEntry>>, tx: Transfer)
    requires
        s.len() == MAX_ACCOUNTS,
    ensures
        flush_one(s, tx).len() == MAX_ACCOUNTS,
        forall|p: int|
            0 <= p < MAX_ACCOUNTS ==> (#[trigger] flush_one(s, tx)[p] is Some) == (s[p] is Some) && (
            s[p] is Some ==> flush_one(s, tx)[p]->0.account_id == s[p]->0.account_id),
        forall|id: u64| #[trigger] find_account(flush_one(s, tx), id, 0) == find_account(s, id, 0),
{
    let di = find_account(s, tx.debit_account_id, 0);
    let ci = find_account(s, tx.credit_account_id, 0);
    lemma_find_account_holds(s, tx.debit_account_id, 0);
    lemma_find_account_holds(s, tx.credit_account_id, 0);
    lemma_apply_at_keeps_ids(s, di, tx);
    let s1 = apply_at(s, di, tx);
    lemma_apply_at_keeps_ids(s1, ci, tx);
    assert forall|id: u64| #[trigger] find_account(flush_one(s, tx), id, 0) == find_account(
        s,
        id,
        0,
    ) by {
        lemma_find_account_frame(s, flush_one(s, tx), id, 0);
    }
}

/// Committing transfers leaves every account where it was.
proof fn lemma_flush_all_keeps_shape(s: Seq<Option<AccountEntry>>, txs: Seq<Transfer>)
    requires
        s.len() == MAX_ACCOUNTS,
    ensures
        flush_all(s, txs).len() == MAX_ACCOUNTS,
        forall|p: int|
            0 <= p < MAX_ACCOUNTS ==> (#[trigger] flush_all(s, txs)[p] is Some) == (s[p] is Some) && (
            s[p] is Some ==> flush_all(s, txs)[p]->0.account_id == s[p]->0.account_id),
    decreases txs.len(),
{
    if txs.len() > 0 {
        lemma_flush_all_keeps_shape(s, txs.drop_last());
        law_flush_one_keeps_ids(flush_all(s, txs.drop_last()), txs.last());
    }
}

/// Double entry: committing transfers whose two accounts are distinct and
/// both in the table adds each amount once to the debits and once to the
/// credits, so the difference between total debits and total credits does
/// not change.
pub proof fn law_flush_keeps_balance(slots: Seq<Option<AccountEntry>>, txs: Seq<Transfer>)
    requires
        slots.len() == MAX_ACCOUNTS,
        flush_fits(slots, txs),
        forall|i: int|
            0 <= i < txs.len() ==> {
                &&& (#[trigger] txs[i]).debit_account_id != txs[i].credit_account_id
                &&& lookup(slots, txs[i].debit_account_id) is Some
                &&& lookup(slots, txs[i].credit_account_id) is Some
            },
    ensures
        flush_all(slots, txs).len() == MAX_ACCOUNTS,
        total_debits(flush_all(slots, txs)) - total_credits(flush_all(slots, txs)) == total_debits(
            slots,
        ) - total_credits(slots),
        forall|id: u64| #[trigger] find_account(flush_all(slots, txs), id, 0) == find_account(
            slots,
            id,
            0,
        ),
    decreases txs.len(),
{
    if txs.len() > 0 {
        let prefix = txs.drop_last();
        assert forall|i: int| 0 <= i < prefix.len() implies #[trigger] flush_one_fits(
            flush_all(slots, prefix.take(i)),
            prefix[i],
        ) by {
            assert(prefix.take(i) =~= txs.take(i));
            assert(flush_one_fits(flush_all(slots, txs.take(i)), txs[i]));
        }
        assert forall|i: int| 0 <= i < prefix.len() implies {
            &&& (#[trigger] prefix[i]).debit_account_id != prefix[i].credit_account_id
            &&& lookup(slots, prefix[i].debit_account_id) is Some
            &&& lookup(slots, prefix[i].credit_account_id) is Some
        } by {
            assert(prefix[i] == txs[i]);
        }
        law_flush_keeps_balance(slots, prefix);
        let s = flush_all(slots, prefix);
        let tx = txs.last();
        assert(txs[txs.len() - 1] == tx);
        assert(txs.take(txs.len() - 1) =~= prefix);
        assert(flush_one_fits(s, tx));
        law_flush_one_keeps_ids(s, tx);
        let di = find_account(s, tx.debit_account_id, 0);
        let ci = find_account(s, tx.credit_account_id, 0);
        assert(di == find_account(slots, tx.debit_account_id, 0));
        assert(ci == find_account(slots, tx.credit_account_id, 0));
        lemma_find_account_holds(s, tx.debit_account_id, 0);
        lemma_find_account_holds(s, tx.credit_account_id, 0);
        let d = di->0;
        let c = ci->0;
        assert(d != c);
        let s1 = apply_at(s, di, tx);
        lemma_totals_update(s, d, Some(s[d]->0.spec_apply(tx)));
        lemma_totals_update(s1, c, Some(s1[c]->0.spec_apply(tx)));
    }
}

/// Replaying a logged transfer whose checksum holds and whose two accounts
/// are both in the table does exactly what committing it did.
pub proof fn law_replay_step_matches_flush(slots: Seq<Option<AccountEntry>>, tx: Transfer)
    requires
        slots.len() == MAX_ACCOUNTS,
        tx.checksum_ok(),
        lookup(slots, tx.debit_account_id) is Some,
        lookup(slots, tx.credit_account_id) is Some,
        flush_one_fits(slots, tx),
    ensures
        transfer_step(slots, tx) == (flush_one(slots, tx), None::<ReplayStop>),
{
    let di = find_account(slots, tx.debit_account_id, 0);
    let ci = find_account(slots, tx.credit_account_id, 0);
    lemma_find_account_holds(slots, tx.debit_account_id, 0);
    lemma_find_account_holds(slots, tx.credit_account_id, 0);
    lemma_apply_at_keeps_ids(slots, di, tx);
    let s1 = apply_at(slots, di, tx);
    lemma_find_account_frame(slots, s1, tx.credit_account_id, 0);
    reveal(transfer_step);
}

/// Total debits less total credits: zero in a balanced ledger.
pub open spec fn imbalance(slots: Seq<Option<AccountEntry>>) -> int {
    total_debits(slots) - total_credits(slots)
}

/// Every whole record of the file decodes to a transfer between two
/// different accounts.
pub open spec fn records_two_sided(bytes: Seq<u8>) -> bool {
    forall|k: int|
        0 <= k < record_count(bytes) ==> (#[trigger] decode_transfer(
            record_at(bytes, k),
        )).debit_account_id != decode_transfer(record_at(bytes, k)).credit_account_id
}

/// Replaying one side of a transfer, when it goes through, adds the balances
/// of `fresh` (the amount, on that side) to the totals.
proof fn lemma_replay_side_totals(
    s: Seq<Option<AccountEntry>>,
    id: u64,
    tx: Transfer,
    fresh: AccountEntry,
)
    requires
        s.len() == MAX_ACCOUNTS,
        fresh.account_id == id,
        (id == tx.debit_account_id && fresh.debit_balance == tx.amount && fresh.credit_balance
            == 0) || (id == tx.credit_account_id && id != tx.debit_account_id
            && fresh.debit_balance == 0 && fresh.credit_balance == tx.amount),
    ensures
        ({
            let (s2, stop) = replay_side(s, id, tx, fresh);
            &&& s2.len() == MAX_ACCOUNTS
            &&& stop is None ==> total_debits(s2) == total_debits(s) + fresh.debit_balance
                && total_credits(s2) == total_credits(s) + fresh.credit_balance
        }),
{
    lemma_find_account_holds(s, id, 0);
    match find_account(s, id, 0) {
        Some(i) => {
            if s[i]->0.apply_fits(tx) {
                lemma_totals_update(s, i, Some(s[i]->0.spec_apply(tx)));
            }
        },
        None => {
            lemma_find_free_result(s, id, 0);
            if let Some(f) = find_free(s, id, 0) {
                lemma_totals_update(s, f, Some(fresh));
            }
        },
    }
}

/// Replaying a transfer between two different accounts, when it goes
/// through, leaves total debits less total credits as it was.
proof fn lemma_transfer_step_totals(s: Seq<Option<AccountEntry>>, tx: Transfer)
    requires
        s.len() == MAX_ACCOUNTS,
        tx.debit_account_id != tx.credit_account_id,
    ensures
        ({
            let (s2, stop) = transfer_step(s, tx);
            &&& s2.len() == MAX_ACCOUNTS
            &&& stop is None ==> imbalance(s2) == imbalance(s)
        }),
{
    reveal(transfer_step);
    let fresh_d = AccountEntry {
        account_id: tx.debit_account_id,
        debit_balance: tx.amount,
        credit_balance: 0,
    };
    let fresh_c = AccountEntry {
        account_id: tx.credit_account_id,
        debit_balance: 0,
        credit_balance: tx.amount,
    };
    lemma_replay_side_totals(s, tx.debit_account_id, tx, fresh_d);
    let (s1, stop1) = replay_side(s, tx.debit_account_id, tx, fresh_d);
    lemma_replay_side_totals(s1, tx.credit_account_id, tx, fresh_c);
}

/// Double entry survives a replay: replaying log records that each move an
/// amount between two different accounts, when the replay goes through to
/// the end, leaves total debits less total credits as it was.
pub proof fn law_replay_keeps_balance(s: Seq<Option<AccountEntry>>, bytes: Seq<u8>, k: nat)
    requires
        s.len() == MAX_ACCOUNTS,
        records_two_sided(bytes),
    ensures
        ({
            let (r, stop) = replay_wal_from(s, bytes, k);
            &&& r.len() == MAX_ACCOUNTS
            &&& stop is None ==> imbalance(r) == imbalance(s)
        }),
    decreases record_count(bytes) - k,
{
    reveal(replay_wal_from);
    if k < record_count(bytes) {
        let tx = decode_transfer(record_at(bytes, k as int));
        assert(tx.debit_account_id != tx.credit_account_id);
        lemma_transfer_step_totals(s, tx);
        let (next, stop) = transfer_step(s, tx);
        if stop is None {
            law_replay_keeps_balance(next, bytes, k + 1);
        }
    }
}

/// The sum of the amounts of a batch.
pub open spec fn batch_amount(txs: Seq<Transfer>) -> int
    decreases txs.len(),
{
    if txs.len() == 0 {
        0
    } else {
        batch_amount(txs.drop_last()) + txs.last().amount
    }
}

/// Table `s` has entries in the same slots as `base`, and each of its
/// balances exceeds the one in the same slot of `base` by at most `bound`.
pub open spec fn grown_by_at_most(
    base: Seq<Option<AccountEntry>>,
    s: Seq<Option<AccountEntry>>,
    bound: int,
) -> bool {
    &&& s.len() == MAX_ACCOUNTS
    &&& forall|p: int| 0 <= p < MAX_ACCOUNTS ==> (#[trigger] s[p] is Some) == (base[p] is Some)
    &&& forall|p: int|
        0 <= p < MAX_ACCOUNTS && #[trigger] s[p] is Some ==> s[p]->0.debit_balance
            <= base[p]->0.debit_balance + bound && s[p]->0.credit_balance
            <= base[p]->0.credit_balance + bound
}

proof fn lemma_batch_amount_prefix(txs: Seq<Transfer>, k: int)
    requires
        0 <= k <= txs.len(),
    ensures
        0 <= batch_amount(txs.take(k)) <= batch_amount(txs),
        k < txs.len() ==> batch_amount(txs.take(k + 1)) == batch_amount(txs.take(k))
            + txs[k].amount,
    decreases txs.len(),
{
    if k < txs.len() {
        assert(txs.take(k + 1).drop_last() =~= txs.take(k));
        lemma_batch_amount_prefix(txs.drop_last(), k);
        assert(txs.drop_last().take(k) =~= txs.take(k));
    } else {
        assert(txs.take(k) =~= txs);
        if txs.len() > 0 {
            lemma_batch_amount_prefix(txs.drop_last(), k - 1);
            assert(txs.drop_last().take(k - 1) =~= txs.drop_last());
        }
    }
}

/// Committing a transfer between two different accounts, to a table whose
/// balances leave room for its amount, overflows nothing and grows each
/// balance by at most the amount.
proof fn lemma_flush_one_grows(
    base: Seq<Option<AccountEntry>>,
    s: Seq<Option<AccountEntry>>,
    tx: Transfer,
    bound: int,
)
    requires
        base.len() == MAX_ACCOUNTS,
        grown_by_at_most(base, s, bound),
        tx.debit_account_id != tx.credit_account_id,
        forall|p: int|
            0 <= p < MAX_ACCOUNTS && #[trigger] base[p] is Some ==> base[p]->0.debit_balance + bound
                + tx.amount <= u128::MAX && base[p]->0.credit_balance + bound + tx.amount
                <= u128::MAX,
    ensures
        flush_one_fits(s, tx),
        grown_by_at_most(base, flush_one(s, tx), bound + tx.amount),
{
    let d = tx.debit_account_id;
    let c = tx.credit_account_id;
    let di = find_account(s, d, 0);
    let ci = find_account(s, c, 0);
    lemma_find_account_holds(s, d, 0);
    lemma_find_account_holds(s, c, 0);
    let s1 = apply_at(s, di, tx);
    if let Some(i) = di {
        assert(s[i] is Some && base[i] is Some);
        if let Some(j) = ci {
            assert(i != j);
            assert(s1[j] == s[j]);
        }
    }
    if let Some(j) = ci {
        assert(s[j] is Some && base[j] is Some);
    }
    let s2 = apply_at(s1, ci, tx);
    assert forall|p: int| 0 <= p < MAX_ACCOUNTS implies (#[trigger] s2[p] is Some) == (
    base[p] is Some) by {
        assert(s1[p] is Some == s[p] is Some);
    }
    assert forall|p: int| 0 <= p < MAX_ACCOUNTS && #[trigger] s2[p] is Some implies s2[p]->0.debit_balance
        <= base[p]->0.debit_balance + bound + tx.amount && s2[p]->0.credit_balance
        <= base[p]->0.credit_balance + bound + tx.amount by {
        assert(s[p] is Some);
    }
}

proof fn lemma_flush_prefix_grows(slots: Seq<Option<AccountEntry>>, txs: Seq<Transfer>, k: int)
    requires
        slots.len() == MAX_ACCOUNTS,
        0 <= k <= txs.len(),
        forall|i: int|
            0 <= i < txs.len() ==> (#[trigger] txs[i]).debit_account_id != txs[i].credit_account_id,
        forall|p: int|
            0 <= p < MAX_ACCOUNTS && #[trigger] slots[p] is Some ==> slots[p]->0.debit_balance
                + batch_amount(txs) <= u128::MAX && slots[p]->0.credit_balance + batch_amount(txs)
                <= u128::MAX,
    ensures
        grown_by_at_most(slots, flush_all(slots, txs.take(k)), batch_amount(txs.take(k))),
        k < txs.len() ==> flush_one_fits(flush_all(slots, txs.take(k)), txs[k]),
    decreases k,
{
    lemma_batch_amount_prefix(txs, k);
    if k == 0 {
        assert(txs.take(0) =~= Seq::<Transfer>::empty());
        assert(flush_all(slots, txs.take(0)) == slots);
    } else {
        lemma_flush_prefix_grows(slots, txs, k - 1);
        lemma_batch_amount_prefix(txs, k - 1);
        lemma_flush_all_step(slots, txs, k - 1);
        lemma_flush_one_grows(
            slots,
            flush_all(slots, txs.take(k - 1)),
            txs[k - 1],
            batch_amount(txs.take(k - 1)),
        );
    }
    if k < txs.len() {
        lemma_batch_amount_prefix(txs, k + 1);
        lemma_flush_one_grows(slots, flush_all(slots, txs.take(k)), txs[k], batch_amount(txs.take(k)));
    }
}

/// The overflow check passes whenever nothing can overflow: a batch of
/// transfers, each between two different accounts, whose amounts added
/// together to any balance of the table stay within `u128`, commits without
/// overflow, however many transfers it holds.
pub proof fn law_flush_fits_when_amounts_fit(slots: Seq<Option<AccountEntry>>, txs: Seq<Transfer>)
    requires
        slots.len() == MAX_ACCOUNTS,
        forall|i: int|
            0 <= i < txs.len() ==> (#[trigger] txs[i]).debit_account_id != txs[i].credit_account_id,
        forall|p: int|
            0 <= p < MAX_ACCOUNTS && #[trigger] slots[p] is Some ==> slots[p]->0.debit_balance
                + batch_amount(txs) <= u128::MAX && slots[p]->0.credit_balance + batch_amount(txs)
                <= u128::MAX,
    ensures
        flush_fits(slots, txs),
{
    assert forall|i: int| 0 <= i < txs.len() implies #[trigger] flush_one_fits(
        flush_all(slots, txs.take(i)),
        txs[i],
    ) by {
        lemma_flush_prefix_grows(slots, txs, i);
    }
}

} // verus!

verus! {

/// The bytes of a batch are one record per transfer, each the transfer's own
/// bytes.
pub proof fn lemma_transfers_image(txs: Seq<Transfer>)
    ensures
        transfers_image(txs).len() == txs.len() * RECORD_SIZE,
        record_count(transfers_image(txs)) == txs.len(),
        forall|k: int|
            0 <= k < txs.len() ==> #[trigger] record_at(transfers_image(txs), k)
                == txs[k].spec_to_bytes(),
    decreases txs.len(),
{
    if txs.len() > 0 {
        let prefix = txs.drop_last();
        lemma_transfers_image(prefix);
        txs.last().lemma_len();
        let img = transfers_image(txs);
        let pimg = transfers_image(prefix);
        assert(img == pimg + txs.last().spec_to_bytes());
        assert(img.len() == txs.len() * RECORD_SIZE) by (nonlinear_arith)
            requires
                img.len() == pimg.len() + 64,
                pimg.len() == prefix.len() * 64,
                prefix.len() + 1 == txs.len(),
        ;
        assert(record_count(img) == txs.len()) by (nonlinear_arith)
            requires
                img.len() == txs.len() * 64,
        ;
        assert forall|k: int| 0 <= k < txs.len() implies #[trigger] record_at(img, k)
            == txs[k].spec_to_bytes() by {
            assert(k * 64 + 64 <= img.len()) by (nonlinear_arith)
                requires
                    0 <= k < txs.len(),
                    img.len() == txs.len() * 64,
            ;
            if k < prefix.len() {
                assert(k * 64 + 64 <= pimg.len()) by (nonlinear_arith)
                    requires
                        0 <= k < prefix.len(),
                        pimg.len() == prefix.len() * 64,
                ;
                assert(record_at(img, k) =~= record_at(pimg, k));
                assert(prefix[k] == txs[k]);
            } else {
                assert(k * 64 == pimg.len()) by (nonlinear_arith)
                    requires
                        k == prefix.len(),
                        pimg.len() == prefix.len() * 64,
                ;
                assert(record_at(img, k) =~= txs.last().spec_to_bytes());
            }
        }
    } else {
        assert(record_count(transfers_image(txs)) == 0);
    }
}

/// The transfer read back from the bytes of a transfer is that transfer.
pub proof fn law_decode_transfer(t: Transfer)
    ensures
        decode_transfer(t.spec_to_bytes()) == t,
{
    let b = t.spec_to_bytes();
    assert(exists|u: Transfer| u.spec_to_bytes() == b);
    crate::transfer::lemma_transfer_bytes_determine(t, decode_transfer(b));
}

/// What the log holds reproduces what was committed: replaying the bytes of
/// a batch, whose checksums hold and whose accounts are all in the table,
/// leaves the table exactly as committing the batch did, and stops nowhere.
pub proof fn law_replay_batch_matches_flush(slots: Seq<Option<AccountEntry>>, txs: Seq<Transfer>)
    requires
        slots.len() == MAX_ACCOUNTS,
        flush_fits(slots, txs),
        forall|i: int|
            0 <= i < txs.len() ==> {
                &&& (#[trigger] txs[i]).checksum_ok()
                &&& lookup(slots, txs[i].debit_account_id) is Some
                &&& lookup(slots, txs[i].credit_account_id) is Some
            },
    ensures
        replay_wal_from(slots, transfers_image(txs), 0) == (flush_all(slots, txs), None::<ReplayStop>),
{
    lemma_transfers_image(txs);
    lemma_replay_suffix(slots, txs, txs.len() as nat);
    assert(txs.take(0) =~= Seq::<Transfer>::empty());
}

/// Replaying from record `k` on, where record `k` decodes to a transfer that
/// applies cleanly, is that one transfer step followed by replaying from
/// record `k + 1` on.
proof fn lemma_replay_wal_unfold(
    s: Seq<Option<AccountEntry>>,
    img: Seq<u8>,
    k: nat,
    tx: Transfer,
    next: Seq<Option<AccountEntry>>,
)
    requires
        k < record_count(img),
        decode_transfer(record_at(img, k as int)) == tx,
        transfer_step(s, tx) == (next, None::<ReplayStop>),
    ensures
        replay_wal_from(s, img, k) == replay_wal_from(next, img, k + 1),
{
    reveal(replay_wal_from);
}

/// The replay from the `k`-th record of a batch's bytes on, started from the
/// table as the first `k` commits left it, ends where committing the whole
/// batch ends. (Stated for the suffix that starts `n` records before the end.)
proof fn lemma_replay_suffix(slots: Seq<Option<AccountEntry>>, txs: Seq<Transfer>, n: nat)
    requires
        slots.len() == MAX_ACCOUNTS,
        n <= txs.len(),
        flush_fits(slots, txs),
        record_count(transfers_image(txs)) == txs.len(),
        forall|k: int|
            0 <= k < txs.len() ==> #[trigger] record_at(transfers_image(txs), k)
                == txs[k].spec_to_bytes(),
        forall|i: int|
            0 <= i < txs.len() ==> {
                &&& (#[trigger] txs[i]).checksum_ok()
                &&& lookup(slots, txs[i].debit_account_id) is Some
                &&& lookup(slots, txs[i].credit_account_id) is Some
            },
    ensures
        ({
            let k = txs.len() - n;
            replay_wal_from(flush_all(slots, txs.take(k)), transfers_image(txs), k as nat) == (
                flush_all(slots, txs),
                None::<ReplayStop>,
            )
        }),
    decreases n,
{
    let k = txs.len() - n;
    let img = transfers_image(txs);
    if n == 0 {
        assert(txs.take(k) =~= txs);
        reveal(replay_wal_from);
    } else {
        lemma_replay_suffix(slots, txs, (n - 1) as nat);
        let s = flush_all(slots, txs.take(k));
        let tx = txs[k];
        assert(tx.checksum_ok() && lookup(slots, tx.debit_account_id) is Some && lookup(
            slots,
            tx.credit_account_id,
        ) is Some);
        assert(flush_one_fits(flush_all(slots, txs.take(k)), txs[k]));
        assert(record_at(img, k) == tx.spec_to_bytes());
        law_decode_transfer(tx);
        lemma_flush_prefix_keeps_ids(slots, txs, k);
        assert(find_account(s, tx.debit_account_id, 0) == find_account(slots, tx.debit_account_id, 0));
        assert(find_account(s, tx.credit_account_id, 0) == find_account(
            slots,
            tx.credit_account_id,
            0,
        ));
        lemma_find_account_holds(s, tx.debit_account_id, 0);
        lemma_find_account_holds(s, tx.credit_account_id, 0);
        assert(lookup(s, tx.debit_account_id) is Some);
        assert(lookup(s, tx.credit_account_id) is Some);
        law_replay_step_matches_flush(s, tx);
        lemma_flush_all_step(slots, txs, k);
        let next = flush_one(s, tx);
        assert(next == flush_all(slots, txs.take(k + 1)));
        lemma_replay_wal_unfold(s, img, k as nat, tx, next);
    }
}

proof fn lemma_flush_prefix_keeps_ids(slots: Seq<Option<AccountEntry>>, txs: Seq<Transfer>, k: int)
    requires
        slots.len() == MAX_ACCOUNTS,
        0 <= k <= txs.len(),
    ensures
        flush_all(slots, txs.take(k)).len() == MAX_ACCOUNTS,
        forall|id: u64| #[trigger] find_account(flush_all(slots, txs.take(k)), id, 0) == find_account(
            slots,
            id,
            0,
        ),
    decreases k,
{
    if k > 0 {
        lemma_flush_prefix_keeps_ids(slots, txs, k - 1);
        lemma_flush_all_step(slots, txs, k - 1);
        law_flush_one_keeps_ids(flush_all(slots, txs.take(k - 1)), txs[k - 1]);
    } else {
        assert(txs.take(0) =~= Seq::<Transfer>::empty());
    }
}

} // verus!
