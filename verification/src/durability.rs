//! What survives a restart. The server answers requests from its table and
//! commits each batch of transfers to the write-ahead log before applying it;
//! after a restart the table is rebuilt by replaying that log. This module
//! states, over a history of registrations and commits, what the rebuilt
//! table holds, and proves it.

use vstd::prelude::*;
use vstd::relations::injective_on;
use vstd::set_lib::*;

use crate::account::{AccountEntry, CheckpointRecord};
use crate::account_cache::{
    apply_at, flush_all, find_account, find_free, flush_one, flush_one_fits, holds, lemma_apply_at_keeps_ids,
    lemma_find_account_frame, lemma_find_account_holds, lemma_find_account_result,
    lemma_find_free_result, lemma_probe_distance, law_insert_new_account, lookup, probe,
    probe_distance, replay_side, spec_insert, transfer_step, ReplayStop, replay_wal_from,
    record_at, record_count, decode_transfer, transfers_image, lemma_transfers_image,
    law_decode_transfer, law_flush_one_keeps_ids, checkpoint_image, checkpoint_step,
    decode_checkpoint, replay_checkpoint_from, total_debits, total_credits, imbalance,
    records_two_sided, law_replay_keeps_balance, lemma_totals_update, law_flush_keeps_balance,
    flush_fits,
};
use crate::transfer::Transfer;
use crate::MAX_ACCOUNTS;

verus! {

/// A table with no entries.
pub open spec fn empty_slots() -> Seq<Option<AccountEntry>> {
    Seq::new(MAX_ACCOUNTS as nat, |i: int| None::<AccountEntry>)
}

/// No two slots hold entries of the same account.
pub open spec fn unique_ids(s: Seq<Option<AccountEntry>>) -> bool {
    forall|p: int, q: int|
        0 <= p < MAX_ACCOUNTS && 0 <= q < MAX_ACCOUNTS && p != q && (#[trigger] s[p]) is Some
            && (#[trigger] s[q]) is Some ==> s[p]->0.account_id != s[q]->0.account_id
}

/// A lookup finds an entry exactly when some slot holds one for the account,
/// and what it finds is an entry of that account.
pub proof fn lemma_lookup_some(s: Seq<Option<AccountEntry>>, id: u64)
    requires
        s.len() == MAX_ACCOUNTS,
    ensures
        lookup(s, id) is Some <==> exists|p: int| 0 <= p < MAX_ACCOUNTS && holds(#[trigger] s[p], id),
        lookup(s, id) matches Some(e) ==> e.account_id == id,
{
    lemma_find_account_result(s, id, 0);
    lemma_find_account_holds(s, id, 0);
    if exists|p: int| 0 <= p < MAX_ACCOUNTS && holds(#[trigger] s[p], id) {
        let p = choose|p: int| 0 <= p < MAX_ACCOUNTS && holds(#[trigger] s[p], id);
        lemma_probe_distance(id, 0, p);
        assert(holds(s[probe(id, probe_distance(id, p))], id));
    }
}

/// Applying a transfer to the entry that a lookup of `id` finds changes what
/// lookups find for `id` only.
pub proof fn lemma_apply_found(s: Seq<Option<AccountEntry>>, id: u64, tx: Transfer)
    requires
        s.len() == MAX_ACCOUNTS,
        lookup(s, id) is Some,
    ensures
        ({
            let t = apply_at(s, find_account(s, id, 0), tx);
            &&& t.len() == MAX_ACCOUNTS
            &&& lookup(t, id) == Some(lookup(s, id)->0.spec_apply(tx))
            &&& forall|other: u64| other != id ==> #[trigger] lookup(t, other) == lookup(s, other)
            &&& forall|y: u64| #[trigger] find_account(t, y, 0) == find_account(s, y, 0)
            &&& (unique_ids(s) ==> unique_ids(t))
        }),
{
    let i = find_account(s, id, 0);
    lemma_find_account_holds(s, id, 0);
    lemma_apply_at_keeps_ids(s, i, tx);
    let t = apply_at(s, i, tx);
    assert forall|y: u64| #[trigger] find_account(t, y, 0) == find_account(s, y, 0) by {
        lemma_find_account_frame(s, t, y, 0);
    }
    assert forall|other: u64| other != id implies #[trigger] lookup(t, other) == lookup(s, other) by {
        lemma_find_account_holds(s, other, 0);
    }
    if unique_ids(s) {
        assert forall|p: int, q: int|
            0 <= p < MAX_ACCOUNTS && 0 <= q < MAX_ACCOUNTS && p != q && (#[trigger] t[p]) is Some
                && (#[trigger] t[q]) is Some implies t[p]->0.account_id != t[q]->0.account_id by {
            assert(s[p] is Some && s[q] is Some);
        }
    }
}

/// Inserting the entry of an account that no slot holds, into an empty slot,
/// keeps the accounts of all slots distinct.
pub proof fn lemma_insert_absent_unique(s: Seq<Option<AccountEntry>>, entry: AccountEntry)
    requires
        s.len() == MAX_ACCOUNTS,
        unique_ids(s),
        lookup(s, entry.account_id) is None,
    ensures
        unique_ids(spec_insert(s, entry)),
        spec_insert(s, entry).len() == MAX_ACCOUNTS,
{
    lemma_lookup_some(s, entry.account_id);
    lemma_find_free_result(s, entry.account_id, 0);
    if let Some(f) = find_free(s, entry.account_id, 0) {
        let t = s.update(f, Some(entry));
        assert forall|p: int, q: int|
            0 <= p < MAX_ACCOUNTS && 0 <= q < MAX_ACCOUNTS && p != q && (#[trigger] t[p]) is Some
                && (#[trigger] t[q]) is Some implies t[p]->0.account_id != t[q]->0.account_id by {
            if p == f {
                assert(!holds(s[q], entry.account_id));
            } else if q == f {
                assert(!holds(s[p], entry.account_id));
            } else {
                assert(s[p] is Some && s[q] is Some);
            }
        }
    }
}

/// The rebuilt table `r` agrees with the live table `l`: every account that
/// `r` holds has the same entry in `l`, and an account that only `l` holds
/// has zero balances (registered, never named by a committed transfer).
pub open spec fn agrees(r: Seq<Option<AccountEntry>>, l: Seq<Option<AccountEntry>>) -> bool {
    &&& forall|id: u64| #[trigger] lookup(r, id) is Some ==> lookup(l, id) == lookup(r, id)
    &&& forall|id: u64|
        lookup(r, id) is None && #[trigger] lookup(l, id) is Some ==> lookup(l, id)->0.debit_balance
            == 0 && lookup(l, id)->0.credit_balance == 0
}

/// Every account that `r` holds, `r2` holds too.
pub open spec fn keeps_accounts(r: Seq<Option<AccountEntry>>, r2: Seq<Option<AccountEntry>>) -> bool {
    forall|y: u64| #[trigger] lookup(r, y) is Some ==> lookup(r2, y) is Some
}

/// The table holds both accounts of every transfer in `txs`.
pub open spec fn names_held(r: Seq<Option<AccountEntry>>, txs: Seq<Transfer>) -> bool {
    forall|i: int|
        0 <= i < txs.len() ==> lookup(r, (#[trigger] txs[i]).debit_account_id) is Some && lookup(
            r,
            txs[i].credit_account_id,
        ) is Some
}

/// When the rebuilt table lacks an account that the live table has, the
/// rebuilt table has an empty slot for it: its accounts are distinct and all
/// in the live table, which has no more slots than it.
pub proof fn lemma_room_for_missing(
    r: Seq<Option<AccountEntry>>,
    l: Seq<Option<AccountEntry>>,
    id: u64,
)
    requires
        r.len() == MAX_ACCOUNTS,
        l.len() == MAX_ACCOUNTS,
        unique_ids(r),
        agrees(r, l),
        lookup(l, id) is Some,
        lookup(r, id) is None,
    ensures
        find_free(r, id, 0) is Some,
{
    lemma_find_free_result(r, id, 0);
    if find_free(r, id, 0) is None {
        assert forall|p: int| 0 <= p < MAX_ACCOUNTS implies (#[trigger] r[p]) is Some by {
            lemma_probe_distance(id, 0, p);
            assert(r[probe(id, probe_distance(id, p))] is Some);
        }
        let range = set_int_range(0, MAX_ACCOUNTS as int);
        lemma_int_range(0, MAX_ACCOUNTS as int);
        let f = |p: int| r[p]->0.account_id;
        let ids_r = range.map(f);
        assert(injective_on(f, range));
        lemma_map_size(range, ids_r, f);
        let ids_l = Set::new(|y: u64| lookup(l, y) is Some);
        let occ = range.filter(|p: int| l[p] is Some);
        let g = |p: int| l[p]->0.account_id;
        let occ_ids = occ.map(g);
        lemma_len_subset(occ, range);
        lemma_map_size_bound(occ, occ_ids, g);
        assert(ids_l.subset_of(occ_ids)) by {
            assert forall|y: u64| ids_l.contains(y) implies occ_ids.contains(y) by {
                lemma_find_account_holds(l, y, 0);
                let i = find_account(l, y, 0)->0;
                assert(occ.contains(i));
                assert(g(i) == y);
            }
        }
        lemma_len_subset(ids_l, occ_ids);
        assert(ids_r.subset_of(ids_l)) by {
            assert forall|y: u64| ids_r.contains(y) implies ids_l.contains(y) by {
                let p = choose|p: int| range.contains(p) && y == f(p);
                lemma_lookup_some(r, y);
                assert(holds(r[p], y));
            }
        }
        lemma_len_subset(ids_r, ids_l);
        lemma_subset_equality(ids_r, ids_l);
        assert(ids_l.contains(id));
        assert(ids_r.contains(id));
        let p = choose|p: int| range.contains(p) && id == f(p);
        lemma_lookup_some(r, id);
        assert(holds(r[p], id));
    }
}

/// The zero-balance entry that registering an account creates.
pub open spec fn fresh_entry(id: u64) -> AccountEntry {
    AccountEntry { account_id: id, debit_balance: 0, credit_balance: 0 }
}

/// Replaying one side of a committed transfer keeps the rebuilt table in
/// agreement with the live one after the live table applied that side: an
/// account the rebuilt table holds gets the same change, and one it lacks is
/// created with the balances that the live account, still at zero, got.
pub proof fn lemma_replay_side_agrees(
    r: Seq<Option<AccountEntry>>,
    l: Seq<Option<AccountEntry>>,
    id: u64,
    tx: Transfer,
    fresh: AccountEntry,
)
    requires
        r.len() == MAX_ACCOUNTS,
        l.len() == MAX_ACCOUNTS,
        unique_ids(r),
        agrees(r, l),
        lookup(l, id) is Some,
        lookup(l, id)->0.apply_fits(tx),
        fresh == fresh_entry(id).spec_apply(tx),
    ensures
        ({
            let (r2, stop) = replay_side(r, id, tx, fresh);
            let l2 = apply_at(l, find_account(l, id, 0), tx);
            &&& stop is None
            &&& r2.len() == MAX_ACCOUNTS
            &&& l2.len() == MAX_ACCOUNTS
            &&& unique_ids(r2)
            &&& agrees(r2, l2)
            &&& lookup(r2, id) is Some
            &&& keeps_accounts(r, r2)
        }),
{
    lemma_apply_found(l, id, tx);
    lemma_lookup_some(l, id);
    lemma_lookup_some(r, id);
    let l2 = apply_at(l, find_account(l, id, 0), tx);
    if lookup(r, id) is Some {
        lemma_apply_found(r, id, tx);
        lemma_find_account_holds(r, id, 0);
        let r2 = apply_at(r, find_account(r, id, 0), tx);
        assert(replay_side(r, id, tx, fresh) == (r2, None::<ReplayStop>));
        assert forall|y: u64| #[trigger] lookup(r, y) is Some implies lookup(r2, y) is Some by {
            if y != id {
                assert(lookup(r2, y) == lookup(r, y));
            }
        }
        assert forall|y: u64| #[trigger] lookup(r2, y) is Some implies lookup(l2, y) == lookup(r2, y) by {
            if y != id {
                assert(lookup(r2, y) == lookup(r, y));
                assert(lookup(l2, y) == lookup(l, y));
            }
        }
        assert forall|y: u64| lookup(r2, y) is None && #[trigger] lookup(l2, y) is Some implies lookup(
            l2,
            y,
        )->0.debit_balance == 0 && lookup(l2, y)->0.credit_balance == 0 by {
            if y != id {
                assert(lookup(r2, y) == lookup(r, y));
                assert(lookup(l2, y) == lookup(l, y));
            }
        }
    } else {
        lemma_room_for_missing(r, l, id);
        lemma_find_account_holds(r, id, 0);
        assert(find_account(r, id, 0) is None);
        assert(fresh.account_id == id);
        let z = lookup(l, id)->0;
        assert(z == fresh_entry(id));
        law_insert_new_account(r, fresh);
        lemma_insert_absent_unique(r, fresh);
        let r2 = spec_insert(r, fresh);
        assert(replay_side(r, id, tx, fresh) == (r2, None::<ReplayStop>));
        assert forall|y: u64| #[trigger] lookup(r, y) is Some implies lookup(r2, y) is Some by {
            if y != id {
                assert(lookup(r2, y) == lookup(r, y));
            }
        }
        assert forall|y: u64| #[trigger] lookup(r2, y) is Some implies lookup(l2, y) == lookup(r2, y) by {
            if y != id {
                assert(lookup(r2, y) == lookup(r, y));
                assert(lookup(l2, y) == lookup(l, y));
            }
        }
        assert forall|y: u64| lookup(r2, y) is None && #[trigger] lookup(l2, y) is Some implies lookup(
            l2,
            y,
        )->0.debit_balance == 0 && lookup(l2, y)->0.credit_balance == 0 by {
            if y != id {
                assert(lookup(r2, y) == lookup(r, y));
                assert(lookup(l2, y) == lookup(l, y));
            }
        }
    }
}

/// Replaying a committed transfer keeps the rebuilt table in agreement with
/// the live table after the live table committed it, and never stops.
pub proof fn lemma_transfer_step_agrees(
    r: Seq<Option<AccountEntry>>,
    l: Seq<Option<AccountEntry>>,
    tx: Transfer,
)
    requires
        r.len() == MAX_ACCOUNTS,
        l.len() == MAX_ACCOUNTS,
        unique_ids(r),
        agrees(r, l),
        tx.checksum_ok(),
        tx.debit_account_id != tx.credit_account_id,
        lookup(l, tx.debit_account_id) is Some,
        lookup(l, tx.credit_account_id) is Some,
        flush_one_fits(l, tx),
    ensures
        ({
            let (r2, stop) = transfer_step(r, tx);
            &&& stop is None
            &&& r2.len() == MAX_ACCOUNTS
            &&& unique_ids(r2)
            &&& agrees(r2, flush_one(l, tx))
            &&& lookup(r2, tx.debit_account_id) is Some
            &&& lookup(r2, tx.credit_account_id) is Some
            &&& keeps_accounts(r, r2)
        }),
{
    reveal(transfer_step);
    let d = tx.debit_account_id;
    let c = tx.credit_account_id;
    let fresh_d = AccountEntry { account_id: d, debit_balance: tx.amount, credit_balance: 0 };
    let fresh_c = AccountEntry { account_id: c, debit_balance: 0, credit_balance: tx.amount };
    assert(fresh_d == fresh_entry(d).spec_apply(tx));
    assert(fresh_c == fresh_entry(c).spec_apply(tx));
    lemma_find_account_holds(l, d, 0);
    lemma_find_account_holds(l, c, 0);
    lemma_replay_side_agrees(r, l, d, tx, fresh_d);
    let (r1, stop1) = replay_side(r, d, tx, fresh_d);
    let l1 = apply_at(l, find_account(l, d, 0), tx);
    lemma_apply_found(l, d, tx);
    assert(find_account(l1, c, 0) == find_account(l, c, 0));
    lemma_find_account_holds(l1, c, 0);
    assert(lookup(l1, c) is Some);
    lemma_replay_side_agrees(r1, l1, c, tx, fresh_c);
    let (r2, stop2) = replay_side(r1, c, tx, fresh_c);
    assert(lookup(r1, d) is Some);
    assert(keeps_accounts(r, r2)) by {
        assert forall|y: u64| #[trigger] lookup(r, y) is Some implies lookup(r2, y) is Some by {
            assert(lookup(r1, y) is Some);
        }
    }
}

/// One step of the server's history, as the table sees it.
pub enum LedgerOp {
    /// An account request: an unknown account is registered with zero
    /// balances when there is room; otherwise the table stays as it is.
    Register(u64),
    /// A transfer of a batch that was written to the log and then committed.
    Commit(Transfer),
}

/// The live table after one step.
pub open spec fn run_op(s: Seq<Option<AccountEntry>>, op: LedgerOp) -> Seq<Option<AccountEntry>> {
    match op {
        LedgerOp::Register(id) => if lookup(s, id) is None && find_free(s, id, 0) is Some {
            spec_insert(s, fresh_entry(id))
        } else {
            s
        },
        LedgerOp::Commit(tx) => flush_one(s, tx),
    }
}

/// The live table after a history, starting from table `s`.
pub open spec fn run_ops_from(s: Seq<Option<AccountEntry>>, ops: Seq<LedgerOp>) -> Seq<
    Option<AccountEntry>,
>
    decreases ops.len(),
{
    if ops.len() == 0 {
        s
    } else {
        run_op(run_ops_from(s, ops.drop_last()), ops.last())
    }
}

/// The live table after a history, starting from an empty table.
pub open spec fn run_ops(ops: Seq<LedgerOp>) -> Seq<Option<AccountEntry>> {
    run_ops_from(empty_slots(), ops)
}

/// The transfers a history committed, in order: what the log holds.
pub open spec fn committed(ops: Seq<LedgerOp>) -> Seq<Transfer>
    decreases ops.len(),
{
    if ops.len() == 0 {
        Seq::empty()
    } else {
        match ops.last() {
            LedgerOp::Commit(tx) => committed(ops.drop_last()).push(tx),
            LedgerOp::Register(_) => committed(ops.drop_last()),
        }
    }
}

/// A step the server can take from table `s`: it commits only transfers
/// whose checksum holds, between two different accounts that are both in the
/// table, without a balance passing the largest `u128`.
pub open spec fn op_admissible(s: Seq<Option<AccountEntry>>, op: LedgerOp) -> bool {
    match op {
        LedgerOp::Register(_) => true,
        LedgerOp::Commit(tx) => {
            &&& tx.checksum_ok()
            &&& tx.debit_account_id != tx.credit_account_id
            &&& lookup(s, tx.debit_account_id) is Some
            &&& lookup(s, tx.credit_account_id) is Some
            &&& flush_one_fits(s, tx)
        },
    }
}

/// Every step of the history, started from table `s`, is one the server can
/// take.
pub open spec fn admissible_from(s: Seq<Option<AccountEntry>>, ops: Seq<LedgerOp>) -> bool
    decreases ops.len(),
{
    ops.len() == 0 || (admissible_from(s, ops.drop_last()) && op_admissible(
        run_ops_from(s, ops.drop_last()),
        ops.last(),
    ))
}

/// Every step of the history, started from an empty table, is one the
/// server can take.
pub open spec fn history_admissible(ops: Seq<LedgerOp>) -> bool {
    admissible_from(empty_slots(), ops)
}

/// Replaying a log with one more record goes on from where replaying the
/// shorter log ended.
proof fn lemma_replay_wal_snoc(s: Seq<Option<AccountEntry>>, a: Seq<u8>, b: Seq<u8>, k: nat)
    requires
        a.len() == record_count(a) * 64,
        b.len() == 64,
        k <= record_count(a),
    ensures
        replay_wal_from(s, a + b, k) == ({
            let (r, stop) = replay_wal_from(s, a, k);
            if stop is Some {
                (r, stop)
            } else {
                transfer_step(r, decode_transfer(b))
            }
        }),
    decreases record_count(a) - k,
{
    reveal(replay_wal_from);
    let n = record_count(a);
    assert(record_count(a + b) == n + 1) by (nonlinear_arith)
        requires
            a.len() == n * 64,
            (a + b).len() == a.len() + 64,
    ;
    if k < n {
        assert(k * 64 + 64 <= a.len()) by (nonlinear_arith)
            requires
                k < n,
                a.len() == n * 64,
        ;
        assert(record_at(a + b, k as int) =~= record_at(a, k as int));
        let (next, stop) = transfer_step(s, decode_transfer(record_at(a, k as int)));
        if stop is None {
            lemma_replay_wal_snoc(next, a, b, k + 1);
        }
    } else {
        assert(k * 64 == a.len()) by (nonlinear_arith)
            requires
                k == n,
                a.len() == n * 64,
        ;
        assert(record_at(a + b, k as int) =~= b);
        let (next, stop) = transfer_step(s, decode_transfer(b));
        if stop is None {
            assert(replay_wal_from(next, a + b, k + 1) == (next, None::<ReplayStop>));
        }
    }
}

/// Replaying the log of a history, from a rebuilt table that agrees with the
/// live table the history started from, never stops early and ends in a
/// table that agrees with the live table the history ends in, keeps every
/// account it started with, and holds both accounts of every transfer the
/// history committed.
pub proof fn law_replay_history_agrees(
    r0: Seq<Option<AccountEntry>>,
    l0: Seq<Option<AccountEntry>>,
    ops: Seq<LedgerOp>,
)
    requires
        r0.len() == MAX_ACCOUNTS,
        l0.len() == MAX_ACCOUNTS,
        unique_ids(r0),
        unique_ids(l0),
        agrees(r0, l0),
        admissible_from(l0, ops),
    ensures
        ({
            let (r, stop) = replay_wal_from(r0, transfers_image(committed(ops)), 0);
            &&& stop is None
            &&& r.len() == MAX_ACCOUNTS
            &&& run_ops_from(l0, ops).len() == MAX_ACCOUNTS
            &&& unique_ids(r)
            &&& unique_ids(run_ops_from(l0, ops))
            &&& agrees(r, run_ops_from(l0, ops))
            &&& keeps_accounts(r0, r)
            &&& names_held(r, committed(ops))
        }),
    decreases ops.len(),
{
    if ops.len() == 0 {
        reveal(replay_wal_from);
        assert(transfers_image(committed(ops)) =~= Seq::<u8>::empty());
        assert(committed(ops) =~= Seq::<Transfer>::empty());
    } else {
        let p = ops.drop_last();
        law_replay_history_agrees(r0, l0, p);
        let (r1, stop1) = replay_wal_from(r0, transfers_image(committed(p)), 0);
        let l1 = run_ops_from(l0, p);
        assert(run_ops_from(l0, ops) == run_op(l1, ops.last()));
        assert(op_admissible(l1, ops.last()));
        match ops.last() {
            LedgerOp::Register(id) => {
                assert(committed(ops) == committed(p));
                if lookup(l1, id) is None && find_free(l1, id, 0) is Some {
                    law_insert_new_account(l1, fresh_entry(id));
                    lemma_insert_absent_unique(l1, fresh_entry(id));
                    let l = spec_insert(l1, fresh_entry(id));
                    assert(lookup(r1, id) is None);
                    assert forall|y: u64| #[trigger] lookup(r1, y) is Some implies lookup(l, y)
                        == lookup(r1, y) by {
                        assert(y != id);
                    }
                    assert forall|y: u64|
                        lookup(r1, y) is None && #[trigger] lookup(l, y) is Some implies lookup(
                            l,
                            y,
                        )->0.debit_balance == 0 && lookup(l, y)->0.credit_balance == 0 by {
                        if y != id {
                            assert(lookup(l, y) == lookup(l1, y));
                        }
                    }
                    assert(agrees(r1, l));
                }
            },
            LedgerOp::Commit(tx) => {
                let q = committed(p);
                assert(committed(ops) == q.push(tx));
                assert(q.push(tx).drop_last() =~= q);
                assert(transfers_image(q.push(tx)) == transfers_image(q) + tx.spec_to_bytes());
                lemma_transfers_image(q);
                tx.lemma_len();
                lemma_replay_wal_snoc(r0, transfers_image(q), tx.spec_to_bytes(), 0);
                law_decode_transfer(tx);
                lemma_transfer_step_agrees(r1, l1, tx);
                law_flush_one_keeps_ids(l1, tx);
                let l = flush_one(l1, tx);
                assert forall|pp: int, qq: int|
                    0 <= pp < MAX_ACCOUNTS && 0 <= qq < MAX_ACCOUNTS && pp != qq && (
                    #[trigger] l[pp]) is Some && (#[trigger] l[qq]) is Some implies l[pp]->0.account_id
                    != l[qq]->0.account_id by {
                    assert(l1[pp] is Some && l1[qq] is Some);
                }
                assert(replay_wal_from(r0, transfers_image(committed(ops)), 0) == transfer_step(
                    r1,
                    tx,
                ));
                let r = transfer_step(r1, tx).0;
                assert(keeps_accounts(r0, r)) by {
                    assert forall|y: u64| #[trigger] lookup(r0, y) is Some implies lookup(r, y) is Some by {
                        assert(lookup(r1, y) is Some);
                    }
                }
                assert(names_held(r, committed(ops))) by {
                    assert forall|i: int| 0 <= i < committed(ops).len() implies lookup(
                        r,
                        (#[trigger] committed(ops)[i]).debit_account_id,
                    ) is Some && lookup(r, committed(ops)[i].credit_account_id) is Some by {
                        if i < q.len() {
                            assert(committed(ops)[i] == q[i]);
                            assert(lookup(r1, q[i].debit_account_id) is Some);
                            assert(lookup(r1, q[i].credit_account_id) is Some);
                        }
                    }
                }
            },
        }
    }
}

/// What survives a restart: after any history the server can go through
/// from an empty table, replaying its log into an empty table never stops
/// early, and rebuilds a table in which every account holds the entry it
/// holds in the live table. Every account named by a committed transfer is
/// in the rebuilt table; an account it lacks was registered and never named
/// by a committed transfer, so its live balances are zero. Both tables are
/// balanced: total debits equal total credits.
pub proof fn law_restart_agrees(ops: Seq<LedgerOp>)
    requires
        history_admissible(ops),
    ensures
        ({
            let (r, stop) = replay_wal_from(empty_slots(), transfers_image(committed(ops)), 0);
            &&& stop is None
            &&& agrees(r, run_ops(ops))
            &&& names_held(r, committed(ops))
            &&& imbalance(r) == 0
            &&& imbalance(run_ops(ops)) == 0
        }),
{
    let e = empty_slots();
    assert forall|id: u64| #[trigger] lookup(e, id) is None by {
        lemma_lookup_some(e, id);
    }
    law_replay_history_agrees(e, e, ops);
    lemma_no_entries_totals(e);
    lemma_committed_two_sided(e, ops);
    lemma_image_two_sided(committed(ops));
    law_replay_keeps_balance(e, transfers_image(committed(ops)), 0);
    law_history_keeps_balance(e, ops);
}

/// A table with no entries has nothing on either side.
proof fn lemma_no_entries_totals(s: Seq<Option<AccountEntry>>)
    requires
        forall|i: int| 0 <= i < s.len() ==> #[trigger] s[i] is None,
    ensures
        total_debits(s) == 0,
        total_credits(s) == 0,
    decreases s.len(),
{
    if s.len() > 0 {
        let t = s.drop_last();
        assert forall|i: int| 0 <= i < t.len() implies #[trigger] t[i] is None by {
            assert(t[i] == s[i]);
        }
        lemma_no_entries_totals(t);
        assert(s[s.len() - 1] is None);
    }
}

/// The records of a batch whose transfers each move an amount between two
/// different accounts decode to such transfers.
proof fn lemma_image_two_sided(txs: Seq<Transfer>)
    requires
        forall|i: int|
            0 <= i < txs.len() ==> (#[trigger] txs[i]).debit_account_id != txs[i].credit_account_id,
    ensures
        records_two_sided(transfers_image(txs)),
{
    lemma_transfers_image(txs);
    let img = transfers_image(txs);
    assert forall|k: int| 0 <= k < record_count(img) implies (#[trigger] decode_transfer(
        record_at(img, k),
    )).debit_account_id != decode_transfer(record_at(img, k)).credit_account_id by {
        law_decode_transfer(txs[k]);
    }
}

/// A history the server can go through commits only transfers between two
/// different accounts.
proof fn lemma_committed_two_sided(s: Seq<Option<AccountEntry>>, ops: Seq<LedgerOp>)
    requires
        admissible_from(s, ops),
    ensures
        forall|i: int|
            0 <= i < committed(ops).len() ==> (#[trigger] committed(ops)[i]).debit_account_id
                != committed(ops)[i].credit_account_id,
    decreases ops.len(),
{
    if ops.len() > 0 {
        let p = ops.drop_last();
        lemma_committed_two_sided(s, p);
        assert(op_admissible(run_ops_from(s, p), ops.last()));
        match ops.last() {
            LedgerOp::Commit(tx) => {
                assert(committed(ops) == committed(p).push(tx));
                assert forall|i: int| 0 <= i < committed(ops).len() implies (
                #[trigger] committed(ops)[i]).debit_account_id
                    != committed(ops)[i].credit_account_id by {
                    if i < committed(p).len() {
                        assert(committed(ops)[i] == committed(p)[i]);
                    }
                }
            },
            LedgerOp::Register(_) => {
                assert(committed(ops) == committed(p));
            },
        }
    }
}

/// Double entry holds of the live table: every step the server can take,
/// registering an account with zero balances or committing a transfer
/// between two different accounts, leaves total debits less total credits
/// as it was.
pub proof fn law_history_keeps_balance(s: Seq<Option<AccountEntry>>, ops: Seq<LedgerOp>)
    requires
        s.len() == MAX_ACCOUNTS,
        admissible_from(s, ops),
    ensures
        run_ops_from(s, ops).len() == MAX_ACCOUNTS,
        imbalance(run_ops_from(s, ops)) == imbalance(s),
    decreases ops.len(),
{
    if ops.len() > 0 {
        let p = ops.drop_last();
        law_history_keeps_balance(s, p);
        let l1 = run_ops_from(s, p);
        assert(op_admissible(l1, ops.last()));
        match ops.last() {
            LedgerOp::Register(id) => {
                if lookup(l1, id) is None && find_free(l1, id, 0) is Some {
                    lemma_find_free_result(l1, id, 0);
                    let f = find_free(l1, id, 0)->0;
                    lemma_totals_update(l1, f, Some(fresh_entry(id)));
                }
            },
            LedgerOp::Commit(tx) => {
                let one = seq![tx];
                assert(one.drop_last() =~= Seq::<Transfer>::empty());
                assert(one.take(0) =~= Seq::<Transfer>::empty());
                assert(flush_all(l1, Seq::<Transfer>::empty()) == l1);
                assert(flush_all(l1, one) == flush_one(l1, tx));
                assert(one[0] == tx);
                assert(flush_fits(l1, one));
                law_flush_keeps_balance(l1, one);
            },
        }
    }
}

/// Some slot before the `j`-th holds an entry of `y`.
pub open spec fn held_before(l: Seq<Option<AccountEntry>>, j: int, y: u64) -> bool {
    exists|p: int| 0 <= p < j && holds(#[trigger] l[p], y)
}

/// In a table whose accounts are distinct, a lookup finds the one slot that
/// holds the account.
proof fn lemma_lookup_unique(l: Seq<Option<AccountEntry>>, p: int, y: u64)
    requires
        l.len() == MAX_ACCOUNTS,
        unique_ids(l),
        0 <= p < MAX_ACCOUNTS,
        holds(l[p], y),
    ensures
        lookup(l, y) == l[p],
{
    lemma_lookup_some(l, y);
    lemma_find_account_holds(l, y, 0);
}

/// A table whose accounts are distinct and all held by the first `i` slots
/// of another table, with `i` short of the whole table, has an empty slot.
proof fn lemma_room_in_prefix(
    r: Seq<Option<AccountEntry>>,
    l: Seq<Option<AccountEntry>>,
    i: int,
    id: u64,
)
    requires
        r.len() == MAX_ACCOUNTS,
        l.len() == MAX_ACCOUNTS,
        unique_ids(r),
        0 <= i < MAX_ACCOUNTS,
        forall|z: u64| #[trigger] lookup(r, z) is Some ==> held_before(l, i, z),
    ensures
        find_free(r, id, 0) is Some,
{
    lemma_find_free_result(r, id, 0);
    if find_free(r, id, 0) is None {
        assert forall|p: int| 0 <= p < MAX_ACCOUNTS implies (#[trigger] r[p]) is Some by {
            lemma_probe_distance(id, 0, p);
            assert(r[probe(id, probe_distance(id, p))] is Some);
        }
        let range = set_int_range(0, MAX_ACCOUNTS as int);
        lemma_int_range(0, MAX_ACCOUNTS as int);
        let f = |p: int| r[p]->0.account_id;
        let ids_r = range.map(f);
        assert(injective_on(f, range));
        lemma_map_size(range, ids_r, f);
        let front = set_int_range(0, i);
        lemma_int_range(0, i);
        let occ = front.filter(|p: int| l[p] is Some);
        let g = |p: int| l[p]->0.account_id;
        let occ_ids = occ.map(g);
        lemma_len_subset(occ, front);
        lemma_map_size_bound(occ, occ_ids, g);
        assert(ids_r.subset_of(occ_ids)) by {
            assert forall|y: u64| ids_r.contains(y) implies occ_ids.contains(y) by {
                let p = choose|p: int| range.contains(p) && y == f(p);
                lemma_lookup_some(r, y);
                assert(holds(r[p], y));
                assert(held_before(l, i, y));
                let q = choose|q: int| 0 <= q < i && holds(#[trigger] l[q], y);
                assert(occ.contains(q));
                assert(g(q) == y);
            }
        }
        lemma_len_subset(ids_r, occ_ids);
    }
}

/// The checkpoint of a table's first `j + 1` slots is that of its first `j`
/// slots followed by the record of slot `j`, if it holds an entry.
proof fn lemma_checkpoint_image_step(l: Seq<Option<AccountEntry>>, j: int)
    requires
        0 <= j < l.len(),
    ensures
        checkpoint_image(l.take(j + 1)) == checkpoint_image(l.take(j)) + match l[j] {
            Some(e) => CheckpointRecord::spec_from_entry(e).spec_to_bytes(),
            None => Seq::<u8>::empty(),
        },
{
    assert(l.take(j + 1).drop_last() =~= l.take(j));
    assert(l.take(j + 1).last() == l[j]);
}

/// A checkpoint is a whole number of records.
proof fn lemma_checkpoint_image_len(s: Seq<Option<AccountEntry>>)
    ensures
        checkpoint_image(s).len() == record_count(checkpoint_image(s)) * 64,
    decreases s.len(),
{
    if s.len() > 0 {
        lemma_checkpoint_image_len(s.drop_last());
        let a = checkpoint_image(s.drop_last());
        match s.last() {
            Some(e) => {
                crate::account::law_checkpoint_record_of_entry(e);
                let n = record_count(a);
                assert(checkpoint_image(s).len() == (n + 1) * 64) by (nonlinear_arith)
                    requires
                        checkpoint_image(s).len() == a.len() + 64,
                        a.len() == n * 64,
                ;
                assert(record_count(checkpoint_image(s)) == n + 1) by (nonlinear_arith)
                    requires
                        checkpoint_image(s).len() == (n + 1) * 64,
                ;
            },
            None => {
                assert(checkpoint_image(s) =~= a);
            },
        }
    }
}

/// Restoring a checkpoint with one more record goes on from where restoring
/// the shorter one ended.
proof fn lemma_replay_checkpoint_snoc(s: Seq<Option<AccountEntry>>, a: Seq<u8>, b: Seq<u8>, k: nat)
    requires
        a.len() == record_count(a) * 64,
        b.len() == 64,
        k <= record_count(a),
    ensures
        replay_checkpoint_from(s, a + b, k) == ({
            let (r, stop) = replay_checkpoint_from(s, a, k);
            if stop is Some {
                (r, stop)
            } else {
                checkpoint_step(r, decode_checkpoint(b))
            }
        }),
    decreases record_count(a) - k,
{
    reveal(replay_checkpoint_from);
    let n = record_count(a);
    assert(record_count(a + b) == n + 1) by (nonlinear_arith)
        requires
            a.len() == n * 64,
            (a + b).len() == a.len() + 64,
    ;
    if k < n {
        assert(k * 64 + 64 <= a.len()) by (nonlinear_arith)
            requires
                k < n,
                a.len() == n * 64,
        ;
        assert(record_at(a + b, k as int) =~= record_at(a, k as int));
        let (next, stop) = checkpoint_step(s, decode_checkpoint(record_at(a, k as int)));
        if stop is None {
            lemma_replay_checkpoint_snoc(next, a, b, k + 1);
        }
    } else {
        assert(k * 64 == a.len()) by (nonlinear_arith)
            requires
                k == n,
                a.len() == n * 64,
        ;
        assert(record_at(a + b, k as int) =~= b);
        let (next, stop) = checkpoint_step(s, decode_checkpoint(b));
        if stop is None {
            assert(replay_checkpoint_from(next, a + b, k + 1) == (next, None::<ReplayStop>));
        }
    }
}

/// Restoring the checkpoint of a table's first `j` slots into an empty table
/// finds, for every account, the entry those slots hold, and nothing for
/// accounts they do not hold; its totals are those of the slots.
proof fn lemma_checkpoint_prefix(l: Seq<Option<AccountEntry>>, j: int)
    requires
        l.len() == MAX_ACCOUNTS,
        unique_ids(l),
        0 <= j <= MAX_ACCOUNTS,
    ensures
        ({
            let (r, stop) = replay_checkpoint_from(empty_slots(), checkpoint_image(l.take(j)), 0);
            &&& stop is None
            &&& r.len() == MAX_ACCOUNTS
            &&& unique_ids(r)
            &&& total_debits(r) == total_debits(l.take(j))
            &&& total_credits(r) == total_credits(l.take(j))
            &&& forall|y: u64|
                #[trigger] lookup(r, y) == if held_before(l, j, y) {
                    lookup(l, y)
                } else {
                    None
                }
        }),
    decreases j,
{
    let e = empty_slots();
    if j == 0 {
        reveal(replay_checkpoint_from);
        assert(checkpoint_image(l.take(0)) =~= Seq::<u8>::empty());
        lemma_no_entries_totals(e);
        assert(l.take(0) =~= Seq::<Option<AccountEntry>>::empty());
        assert forall|y: u64| #[trigger] lookup(e, y) == if held_before(l, 0, y) {
            lookup(l, y)
        } else {
            None
        } by {
            lemma_lookup_some(e, y);
        }
    } else {
        let i = j - 1;
        lemma_checkpoint_prefix(l, i);
        lemma_checkpoint_image_step(l, i);
        let a = checkpoint_image(l.take(i));
        let (r1, stop1) = replay_checkpoint_from(e, a, 0);
        assert(l.take(j).drop_last() =~= l.take(i));
        assert(l.take(j).last() == l[i]);
        match l[i] {
            None => {
                assert(checkpoint_image(l.take(j)) =~= a);
                assert forall|y: u64| #[trigger] held_before(l, j, y) == held_before(l, i, y) by {
                    if held_before(l, j, y) {
                        let p = choose|p: int| 0 <= p < j && holds(#[trigger] l[p], y);
                        assert(p < i);
                    }
                }
            },
            Some(entry) => {
                let cr = CheckpointRecord::spec_from_entry(entry);
                let b = cr.spec_to_bytes();
                crate::account::law_checkpoint_record_of_entry(entry);
                lemma_checkpoint_image_len(l.take(i));
                lemma_replay_checkpoint_snoc(e, a, b, 0);
                assert(decode_checkpoint(b) == cr);
                let id = entry.account_id;
                assert(AccountEntry {
                    account_id: cr.account_id,
                    debit_balance: cr.debit_balance,
                    credit_balance: cr.credit_balance,
                } == entry);
                // No earlier slot holds this account.
                assert(!held_before(l, i, id)) by {
                    if held_before(l, i, id) {
                        let p = choose|p: int| 0 <= p < i && holds(#[trigger] l[p], id);
                        assert(l[p] is Some && l[i] is Some);
                    }
                }
                assert(lookup(r1, id) is None);
                lemma_room_in_prefix(r1, l, i, id);
                lemma_find_free_result(r1, id, 0);
                lemma_totals_update(r1, find_free(r1, id, 0)->0, Some(entry));
                law_insert_new_account(r1, entry);
                lemma_insert_absent_unique(r1, entry);
                let r = spec_insert(r1, entry);
                lemma_lookup_unique(l, i, id);
                assert(checkpoint_step(r1, cr) == (r, None::<ReplayStop>));
                assert forall|y: u64| #[trigger] lookup(r, y) == if held_before(l, j, y) {
                    lookup(l, y)
                } else {
                    None
                } by {
                    if y == id {
                        assert(holds(l[i], id));
                        assert(held_before(l, j, id));
                    } else {
                        assert(lookup(r, y) == lookup(r1, y));
                        if held_before(l, j, y) {
                            let p = choose|p: int| 0 <= p < j && holds(#[trigger] l[p], y);
                            assert(p != i);
                            assert(held_before(l, i, y));
                        }
                        if held_before(l, i, y) {
                            let p = choose|p: int| 0 <= p < i && holds(#[trigger] l[p], y);
                            assert(held_before(l, j, y));
                        }
                    }
                }
            },
        }
    }
}

/// Restoring the checkpoint of a table whose accounts are distinct, into an
/// empty table, never stops early, every lookup then finds what it finds in
/// the checkpointed table, and the totals of both sides are those of the
/// checkpointed table.
pub proof fn law_checkpoint_restores(l: Seq<Option<AccountEntry>>)
    requires
        l.len() == MAX_ACCOUNTS,
        unique_ids(l),
    ensures
        ({
            let (r, stop) = replay_checkpoint_from(empty_slots(), checkpoint_image(l), 0);
            &&& stop is None
            &&& r.len() == MAX_ACCOUNTS
            &&& unique_ids(r)
            &&& forall|y: u64| #[trigger] lookup(r, y) == lookup(l, y)
            &&& total_debits(r) == total_debits(l)
            &&& total_credits(r) == total_credits(l)
        }),
{
    lemma_checkpoint_prefix(l, MAX_ACCOUNTS as int);
    assert(l.take(MAX_ACCOUNTS as int) =~= l);
    let (r, stop) = replay_checkpoint_from(empty_slots(), checkpoint_image(l), 0);
    assert forall|y: u64| #[trigger] lookup(r, y) == lookup(l, y) by {
        lemma_lookup_some(l, y);
        if lookup(l, y) is Some {
            let p = choose|p: int| 0 <= p < MAX_ACCOUNTS && holds(#[trigger] l[p], y);
            assert(held_before(l, MAX_ACCOUNTS as int, y));
        }
    }
}

/// What survives a restart after a checkpoint: the server checkpointed its
/// table after the history `before` and emptied the log, then went through
/// `after`. Restoring the checkpoint and then replaying the log never stops
/// early, and rebuilds a balanced table that agrees with the live one and
/// holds every account named by a transfer committed before or after the
/// checkpoint.
pub proof fn law_restart_after_checkpoint(before: Seq<LedgerOp>, after: Seq<LedgerOp>)
    requires
        history_admissible(before),
        admissible_from(run_ops(before), after),
    ensures
        ({
            let (r0, stop0) = replay_checkpoint_from(
                empty_slots(),
                checkpoint_image(run_ops(before)),
                0,
            );
            let (r, stop) = replay_wal_from(r0, transfers_image(committed(after)), 0);
            &&& stop0 is None
            &&& stop is None
            &&& agrees(r, run_ops_from(run_ops(before), after))
            &&& names_held(r, committed(before))
            &&& names_held(r, committed(after))
            &&& imbalance(r) == 0
        }),
{
    let e = empty_slots();
    assert forall|id: u64| #[trigger] lookup(e, id) is None by {
        lemma_lookup_some(e, id);
    }
    law_replay_history_agrees(e, e, before);
    let lc = run_ops(before);
    law_checkpoint_restores(lc);
    let (r0, stop0) = replay_checkpoint_from(e, checkpoint_image(lc), 0);
    assert(agrees(r0, lc));
    law_replay_history_agrees(r0, lc, after);
    let (r, stop) = replay_wal_from(r0, transfers_image(committed(after)), 0);
    // The accounts of the transfers before the checkpoint are in the live
    // table, so in the restored one, and the log replay keeps them.
    let (rb, stopb) = replay_wal_from(e, transfers_image(committed(before)), 0);
    let cb = committed(before);
    assert forall|i: int| 0 <= i < cb.len() implies lookup(r, (#[trigger] cb[i]).debit_account_id)
        is Some && lookup(r, cb[i].credit_account_id) is Some by {
        assert(lookup(rb, cb[i].debit_account_id) is Some);
        assert(lookup(rb, cb[i].credit_account_id) is Some);
        assert(lookup(r0, cb[i].debit_account_id) == lookup(lc, cb[i].debit_account_id));
        assert(lookup(r0, cb[i].credit_account_id) == lookup(lc, cb[i].credit_account_id));
    }
    lemma_no_entries_totals(e);
    law_history_keeps_balance(e, before);
    lemma_committed_two_sided(lc, after);
    lemma_image_two_sided(committed(after));
    law_replay_keeps_balance(r0, transfers_image(committed(after)), 0);
}

/// The commits of a batch, in order.
pub open spec fn commits(txs: Seq<Transfer>) -> Seq<LedgerOp> {
    txs.map_values(|t: Transfer| LedgerOp::Commit(t))
}

/// Flushing a batch is committing its transfers one after another, and what
/// those commits put in the log is the batch.
pub proof fn law_flush_is_commits(s: Seq<Option<AccountEntry>>, txs: Seq<Transfer>)
    ensures
        flush_all(s, txs) == run_ops_from(s, commits(txs)),
        committed(commits(txs)) == txs,
    decreases txs.len(),
{
    if txs.len() > 0 {
        law_flush_is_commits(s, txs.drop_last());
        assert(commits(txs).drop_last() =~= commits(txs.drop_last()));
        assert(txs.drop_last().push(txs.last()) =~= txs);
    } else {
        assert(commits(txs) =~= Seq::<LedgerOp>::empty());
    }
}

} // verus!
