use vstd::prelude::*;

use crate::amount::{
    aligned, difference_of, lemma_difference_units, lemma_sum_units, pow10, sum_of, Amount,
};
use crate::ledger::{ClientView, LedgerView};
use crate::processor::{lemma_step_wf, records_wf, run, step, LedgerError, Store};
use crate::store::{store_wf, ClientId, TransactionId, TransactionRecord, TransactionType};

verus! {

pub open spec fn record(
    kind: TransactionType,
    c: ClientId,
    t: TransactionId,
    value: Option<Amount>,
) -> TransactionRecord {
    TransactionRecord { transaction_type: kind, client_id: c, transaction_id: t, value }
}

/// The client identifiers of `ids`, each kept at its first appearance.
pub open spec fn first_seen(ids: Seq<ClientId>) -> Seq<ClientId>
    decreases ids.len(),
{
    if ids.len() == 0 {
        Seq::empty()
    } else {
        let earlier = first_seen(ids.drop_last());
        if earlier.contains(ids.last()) {
            earlier
        } else {
            earlier.push(ids.last())
        }
    }
}

/// Running a single record is one step.
proof fn lemma_run_one(l: LedgerView, s: Store, r: TransactionRecord)
    ensures
        run(l, s, seq![r]) == step(l, s, r),
{
    assert(seq![r].drop_last() =~= Seq::<TransactionRecord>::empty());
    assert(run(l, s, Seq::<TransactionRecord>::empty()) == Ok::<(LedgerView, Store), LedgerError>(
        (l, s),
    ));
    assert(seq![r].last() == r);
}

/// Running two records is one step after the other.
proof fn lemma_run_two(l: LedgerView, s: Store, r1: TransactionRecord, r2: TransactionRecord)
    ensures
        run(l, s, seq![r1, r2]) == match step(l, s, r1) {
            Ok((l1, s1)) => step(l1, s1, r2),
            Err(e) => Err(e),
        },
{
    assert(seq![r1, r2].drop_last() =~= seq![r1]);
    lemma_run_one(l, s, r1);
}

/// Runs that succeed keep ledger and store well formed.
pub proof fn lemma_run_wf(l: LedgerView, s: Store, rs: Seq<TransactionRecord>)
    requires
        l.wf(),
        store_wf(s),
        records_wf(rs),
    ensures
        run(l, s, rs) matches Ok((l2, s2)) ==> l2.wf() && store_wf(s2),
    decreases rs.len(),
{
    if rs.len() > 0 {
        let prefix = rs.drop_last();
        assert(records_wf(prefix)) by {
            assert forall|i: int| 0 <= i < prefix.len() implies #[trigger] prefix[i].wf() by {
                assert(prefix[i] == rs[i]);
            }
        }
        lemma_run_wf(l, s, prefix);
        if let Ok((l1, s1)) = run(l, s, prefix) {
            assert(rs.last().wf());
            lemma_step_wf(l1, s1, rs.last());
        }
    }
}

/// A deposit of `a` into an empty ledger leaves exactly `a` available,
/// nothing held, the account unlocked and nothing disputed.
pub proof fn law_first_deposit(c: ClientId, t: TransactionId, a: Amount)
    requires
        a.wf(),
    ensures
        run(
            LedgerView::empty(),
            Map::empty(),
            seq![record(TransactionType::Deposit, c, t, Some(a))],
        ) matches Ok((l, s)) && l.clients[c] == (ClientView {
            available: a,
            held: Amount { mantissa: 0, scale: 0 },
            locked: false,
            disputed: Set::empty(),
        }) && l.order == seq![c],
{
    let r = record(TransactionType::Deposit, c, t, Some(a));
    lemma_run_one(LedgerView::empty(), Map::empty(), r);
    let zero = Amount { mantissa: 0, scale: 0 };
    assert(pow10(0) == 1);
    assert(aligned(zero, a.scale) == 0);
    assert(aligned(a, a.scale) == a.mantissa);
    assert(sum_of(zero, a) == Some(a));
    assert(Seq::<ClientId>::empty().push(c) =~= seq![c]);
}

/// A withdrawal of more than is available changes no balance, and its
/// record stays in the store, where later disputes find it.
pub proof fn law_insufficient_withdrawal(l: LedgerView, s: Store, r: TransactionRecord)
    requires
        r.transaction_type == TransactionType::Withdrawal,
        r.value matches Some(v) && l.registered(r.client_id).clients[r.client_id].available.units()
            < v.units(),
    ensures
        step(l, s, r) matches Ok((l2, s2)) && l2.clients[r.client_id] == l.registered(
            r.client_id,
        ).clients[r.client_id] && s2.contains_key(r.transaction_id) && s2[r.transaction_id] == r,
{
}

/// A dispute on a stored transaction of amount `a` moves exactly `a` from
/// available to held.
pub proof fn law_dispute_moves(l: LedgerView, s: Store, r: TransactionRecord)
    requires
        l.wf(),
        store_wf(s),
        r.wf(),
        r.transaction_type == TransactionType::Dispute,
        s.contains_key(r.transaction_id),
    ensures
        ({
            let a = s[r.transaction_id].value->0;
            let before = l.registered(r.client_id).clients[r.client_id];
            match step(l, s, r) {
                Ok((l2, s2)) => {
                    let after = l2.clients[r.client_id];
                    &&& after.available.units() == before.available.units() - a.units()
                    &&& after.held.units() == before.held.units() + a.units()
                    &&& after.locked == before.locked
                    &&& after.disputed == before.disputed.insert(r.transaction_id)
                    &&& s2 == s
                },
                Err(e) => e == LedgerError::Overflow,
            }
        }),
{
    lemma_step_wf(l, s, r);
    let a = s[r.transaction_id].value->0;
    let before = l.registered(r.client_id).clients[r.client_id];
    lemma_registered_has(l, r.client_id);
    if let Some(x) = difference_of(before.available, a) {
        lemma_difference_units(before.available, a);
    }
    if let Some(x) = sum_of(before.held, a) {
        lemma_sum_units(before.held, a);
    }
}

proof fn lemma_registered_has(l: LedgerView, id: ClientId)
    requires
        l.wf(),
    ensures
        l.registered(id).clients.contains_key(id),
        l.registered(id).clients[id].wf(),
{
}

/// A resolve right after a dispute of the same transaction by the same
/// client restores the balances from before the dispute.
pub proof fn law_dispute_then_resolve(l: LedgerView, s: Store, c: ClientId, t: TransactionId)
    requires
        l.wf(),
        store_wf(s),
        s.contains_key(t),
    ensures
        ({
            let before = l.registered(c).clients[c];
            let rs = seq![
                record(TransactionType::Dispute, c, t, None),
                record(TransactionType::Resolve, c, t, None),
            ];
            match run(l, s, rs) {
                Ok((l2, s2)) => {
                    let after = l2.clients[c];
                    &&& after.available.units() == before.available.units()
                    &&& after.held.units() == before.held.units()
                    &&& after.locked == before.locked
                    &&& after.disputed == before.disputed.insert(t).remove(t)
                    &&& s2 == s
                },
                Err(e) => e == LedgerError::Overflow,
            }
        }),
{
    let d = record(TransactionType::Dispute, c, t, None);
    let rr = record(TransactionType::Resolve, c, t, None);
    lemma_run_two(l, s, d, rr);
    law_dispute_moves(l, s, d);
    lemma_step_wf(l, s, d);
    if let Ok((l1, s1)) = step(l, s, d) {
        let mid = l1.clients[c];
        assert(l1.clients.contains_key(c));
        assert(l1.registered(c) == l1);
        assert(mid.wf());
        let a = s[t].value->0;
        assert(a.wf());
        if let Some(x) = difference_of(mid.held, a) {
            lemma_difference_units(mid.held, a);
        }
        if let Some(x) = sum_of(mid.available, a) {
            lemma_sum_units(mid.available, a);
        }
    }
}

/// A chargeback right after a dispute of the same transaction by the same
/// client takes the amount out of held, leaves available as the dispute
/// left it, and locks the account.
pub proof fn law_dispute_then_chargeback(l: LedgerView, s: Store, c: ClientId, t: TransactionId)
    requires
        l.wf(),
        store_wf(s),
        s.contains_key(t),
    ensures
        ({
            let a = s[t].value->0;
            let before = l.registered(c).clients[c];
            let rs = seq![
                record(TransactionType::Dispute, c, t, None),
                record(TransactionType::Chargeback, c, t, None),
            ];
            match run(l, s, rs) {
                Ok((l2, s2)) => {
                    let after = l2.clients[c];
                    &&& after.available.units() == before.available.units() - a.units()
                    &&& after.held.units() == before.held.units()
                    &&& after.locked
                    &&& s2 == s
                },
                Err(e) => e == LedgerError::Overflow,
            }
        }),
{
    let d = record(TransactionType::Dispute, c, t, None);
    let cb = record(TransactionType::Chargeback, c, t, None);
    lemma_run_two(l, s, d, cb);
    law_dispute_moves(l, s, d);
    lemma_step_wf(l, s, d);
    if let Ok((l1, s1)) = step(l, s, d) {
        let mid = l1.clients[c];
        assert(l1.clients.contains_key(c));
        assert(l1.registered(c) == l1);
        assert(mid.wf());
        let a = s[t].value->0;
        assert(a.wf());
        if let Some(x) = difference_of(mid.held, a) {
            lemma_difference_units(mid.held, a);
        }
    }
}

/// A dispute, resolve or chargeback that names no stored transaction changes
/// nothing, beyond making a new client known.
pub proof fn law_unknown_reference(l: LedgerView, s: Store, r: TransactionRecord)
    requires
        !r.transaction_type.carries_amount(),
        !s.contains_key(r.transaction_id),
    ensures
        step(l, s, r) == Ok::<(LedgerView, Store), LedgerError>((l.registered(r.client_id), s)),
{
    let l1 = l.registered(r.client_id);
    assert(l1.clients.insert(r.client_id, l1.clients[r.client_id]) =~= l1.clients);
}

/// A resolve or chargeback of a transaction that the client has not under
/// dispute changes nothing, beyond making a new client known.
pub proof fn law_undisputed_no_op(l: LedgerView, s: Store, r: TransactionRecord)
    requires
        r.transaction_type == TransactionType::Resolve || r.transaction_type
            == TransactionType::Chargeback,
        !l.registered(r.client_id).clients[r.client_id].disputed.contains(r.transaction_id),
    ensures
        step(l, s, r) == Ok::<(LedgerView, Store), LedgerError>((l.registered(r.client_id), s)),
{
    let l1 = l.registered(r.client_id);
    assert(l1.clients.insert(r.client_id, l1.clients[r.client_id]) =~= l1.clients);
}

/// Clients are listed in the order of their first appearance in the input.
pub proof fn law_first_seen_order(rs: Seq<TransactionRecord>)
    requires
        records_wf(rs),
    ensures
        run(LedgerView::empty(), Map::empty(), rs) matches Ok((l, s)) ==> l.order == first_seen(
            rs.map_values(|r: TransactionRecord| r.client_id),
        ),
    decreases rs.len(),
{
    let ids = rs.map_values(|r: TransactionRecord| r.client_id);
    if rs.len() == 0 {
        assert(ids =~= Seq::<ClientId>::empty());
    } else {
        let prefix = rs.drop_last();
        assert(records_wf(prefix)) by {
            assert forall|i: int| 0 <= i < prefix.len() implies #[trigger] prefix[i].wf() by {
                assert(prefix[i] == rs[i]);
            }
        }
        law_first_seen_order(prefix);
        assert(ids.drop_last() =~= prefix.map_values(|r: TransactionRecord| r.client_id));
        lemma_run_wf(LedgerView::empty(), Map::empty(), prefix);
    }
}

} // verus!
