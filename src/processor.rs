use vstd::prelude::*;
use vstd::std_specs::hash::obeys_key_model;

use crate::amount::{difference_of, lemma_difference_units, lemma_sum_units, sum_of};
use crate::ledger::{ClientState, ClientView, Ledger, LedgerView};
use crate::store::{
    store_wf, ClientId, TransactionId, TransactionRecord, TransactionType, TxDatabase,
};

verus! {

broadcast use vstd::std_specs::hash::group_hash_axioms;

#[derive(Clone, Copy, Debug, PartialEq, Eq, Structural)]
pub enum LedgerError {
    /// A deposit or withdrawal came without an amount.
    MissingAmount,
    /// A balance left the range of exactly representable amounts.
    Overflow,
}

pub type Store = Map<TransactionId, TransactionRecord>;

/// The state of one client after `r`, given the records stored so far.
pub open spec fn client_step(c: ClientView, s: Store, r: TransactionRecord) -> Result<
    ClientView,
    LedgerError,
> {
    let tx = r.transaction_id;
    match r.transaction_type {
        TransactionType::Deposit => match r.value {
            None => Err(LedgerError::MissingAmount),
            Some(v) => match sum_of(c.available, v) {
                Some(a) => Ok(
                    ClientView { available: a, held: c.held, locked: c.locked, disputed: c.disputed },
                ),
                None => Err(LedgerError::Overflow),
            },
        },
        TransactionType::Withdrawal => match r.value {
            None => Err(LedgerError::MissingAmount),
            Some(v) => if c.available.units() < v.units() {
                Ok(c)
            } else {
                match difference_of(c.available, v) {
                    Some(a) => Ok(
                        ClientView {
                            available: a,
                            held: c.held,
                            locked: c.locked,
                            disputed: c.disputed,
                        },
                    ),
                    None => Err(LedgerError::Overflow),
                }
            },
        },
        TransactionType::Dispute => if !s.contains_key(tx) {
            Ok(c)
        } else {
            let v = s[tx].value->0;
            match (difference_of(c.available, v), sum_of(c.held, v)) {
                (Some(a), Some(h)) => Ok(
                    ClientView {
                        available: a,
                        held: h,
                        locked: c.locked,
                        disputed: c.disputed.insert(tx),
                    },
                ),
                _ => Err(LedgerError::Overflow),
            }
        },
        TransactionType::Resolve => if !s.contains_key(tx) || !c.disputed.contains(tx) {
            Ok(c)
        } else {
            let v = s[tx].value->0;
            match (difference_of(c.held, v), sum_of(c.available, v)) {
                (Some(h), Some(a)) => Ok(
                    ClientView {
                        available: a,
                        held: h,
                        locked: c.locked,
                        disputed: c.disputed.remove(tx),
                    },
                ),
                _ => Err(LedgerError::Overflow),
            }
        },
        TransactionType::Chargeback => if !s.contains_key(tx) || !c.disputed.contains(tx) {
            Ok(c)
        } else {
            let v = s[tx].value->0;
            match difference_of(c.held, v) {
                Some(h) => Ok(
                    ClientView {
                        available: c.available,
                        held: h,
                        locked: true,
                        disputed: c.disputed.remove(tx),
                    },
                ),
                None => Err(LedgerError::Overflow),
            }
        },
    }
}

/// The store after `r`: deposits and withdrawals are kept, whatever their
/// effect on the balance.
pub open spec fn store_step(s: Store, r: TransactionRecord) -> Store {
    if r.transaction_type.carries_amount() {
        s.insert(r.transaction_id, r)
    } else {
        s
    }
}

/// Ledger and store after `r`.
pub open spec fn step(l: LedgerView, s: Store, r: TransactionRecord) -> Result<
    (LedgerView, Store),
    LedgerError,
> {
    let l1 = l.registered(r.client_id);
    match client_step(l1.clients[r.client_id], s, r) {
        Ok(c) => Ok(
            (
                LedgerView { clients: l1.clients.insert(r.client_id, c), order: l1.order },
                store_step(s, r),
            ),
        ),
        Err(e) => Err(e),
    }
}

/// Ledger and store after the records `rs` in order, or the first error.
pub open spec fn run(l: LedgerView, s: Store, rs: Seq<TransactionRecord>) -> Result<
    (LedgerView, Store),
    LedgerError,
>
    decreases rs.len(),
{
    if rs.len() == 0 {
        Ok((l, s))
    } else {
        match run(l, s, rs.drop_last()) {
            Ok((l1, s1)) => step(l1, s1, rs.last()),
            Err(e) => Err(e),
        }
    }
}

pub open spec fn records_wf(rs: Seq<TransactionRecord>) -> bool {
    forall|i: int| 0 <= i < rs.len() ==> #[trigger] rs[i].wf()
}

/// A known client stays well formed under a step that succeeds.
proof fn lemma_client_step_wf(c: ClientView, s: Store, r: TransactionRecord)
    requires
        c.wf(),
        store_wf(s),
        r.wf(),
    ensures
        client_step(c, s, r) matches Ok(c2) ==> c2.wf(),
{
    let tx = r.transaction_id;
    if let Some(v) = r.value {
        if let Some(a) = sum_of(c.available, v) {
            lemma_sum_units(c.available, v);
        }
        if let Some(a) = difference_of(c.available, v) {
            lemma_difference_units(c.available, v);
        }
    }
    if s.contains_key(tx) {
        let v = s[tx].value->0;
        if let Some(a) = sum_of(c.available, v) {
            lemma_sum_units(c.available, v);
        }
        if let Some(a) = difference_of(c.available, v) {
            lemma_difference_units(c.available, v);
        }
        if let Some(a) = sum_of(c.held, v) {
            lemma_sum_units(c.held, v);
        }
        if let Some(a) = difference_of(c.held, v) {
            lemma_difference_units(c.held, v);
        }
    }
}

/// Registering a client keeps a ledger well formed.
proof fn lemma_registered_wf(l: LedgerView, id: ClientId)
    requires
        l.wf(),
    ensures
        l.registered(id).wf(),
        l.registered(id).clients.contains_key(id),
{
    if !l.clients.contains_key(id) {
        let l1 = l.registered(id);
        assert(!l.order.contains(id));
        assert forall|c: ClientId| #[trigger] l1.clients.contains_key(c) <==> l1.order.contains(c) by {
            if c != id {
                assert(l1.order.contains(c) ==> l.order.contains(c)) by {
                    if l1.order.contains(c) {
                        let i = choose|i: int| 0 <= i < l1.order.len() && l1.order[i] == c;
                        assert(l.order[i] == c);
                    }
                }
                assert(l.order.contains(c) ==> l1.order.contains(c)) by {
                    if l.order.contains(c) {
                        let i = choose|i: int| 0 <= i < l.order.len() && l.order[i] == c;
                        assert(l1.order[i] == c);
                    }
                }
            } else {
                assert(l1.order[l.order.len() as int] == id);
            }
        }
    }
}

/// Every step that succeeds keeps ledger and store well formed.
pub proof fn lemma_step_wf(l: LedgerView, s: Store, r: TransactionRecord)
    requires
        l.wf(),
        store_wf(s),
        r.wf(),
    ensures
        step(l, s, r) matches Ok((l2, s2)) ==> l2.wf() && store_wf(s2),
{
    let id = r.client_id;
    lemma_registered_wf(l, id);
    let l1 = l.registered(id);
    lemma_client_step_wf(l1.clients[id], s, r);
    if let Ok((l2, s2)) = step(l, s, r) {
        assert forall|c: ClientId| #[trigger] l2.clients.contains_key(c) <==> l2.order.contains(
            c,
        ) by {
            assert(l1.clients.contains_key(c) <==> l1.order.contains(c));
        }
        assert forall|c: ClientId| #[trigger] l2.clients.contains_key(c) implies l2.clients[c].wf() by {
            if c != id {
                assert(l1.clients.contains_key(c));
            }
        }
        assert forall|k: TransactionId| #[trigger] s2.contains_key(k) implies s2[k].storable()
            && s2[k].transaction_id == k by {
            if r.transaction_type.carries_amount() && k == r.transaction_id {
            } else {
                assert(s.contains_key(k));
            }
        }
    }
}

/// Applies `record` to one client's state, storing it where it carries an
/// amount. Nothing changes on an error.
fn apply_to_client(
    record: &TransactionRecord,
    client: &mut ClientState,
    store: &mut TxDatabase,
) -> (r: Result<(), LedgerError>)
    requires
        old(client)@.wf(),
        store_wf(old(store)@),
        record.wf(),
    ensures
        match client_step(old(client)@, old(store)@, *record) {
            Ok(c) => {
                &&& r is Ok
                &&& final(client)@ == c
                &&& final(store)@ == store_step(old(store)@, *record)
            },
            Err(e) => {
                &&& r == Err::<(), LedgerError>(e)
                &&& final(client)@ == old(client)@
                &&& final(store)@ == old(store)@
            },
        },
{
    proof {
        assert(obeys_key_model::<TransactionId>());
    }
    let tx = record.transaction_id;
    match record.transaction_type {
        TransactionType::Deposit => {
            let v = match record.value {
                Some(v) => v,
                None => return Err(LedgerError::MissingAmount),
            };
            let a = match client.available.checked_add(v) {
                Some(a) => a,
                None => return Err(LedgerError::Overflow),
            };
            client.available = a;
            store.save(*record);
            Ok(())
        },
        TransactionType::Withdrawal => {
            let v = match record.value {
                Some(v) => v,
                None => return Err(LedgerError::MissingAmount),
            };
            if client.available.less_than(&v) {
                // An insufficient withdrawal changes no balance but stays
                // open to dispute.
                store.save(*record);
                return Ok(());
            }
            let a = match client.available.checked_sub(v) {
                Some(a) => a,
                None => return Err(LedgerError::Overflow),
            };
            client.available = a;
            store.save(*record);
            Ok(())
        },
        TransactionType::Dispute => {
            let referenced = match store.query(tx) {
                Some(rec) => rec,
                None => return Ok(()),
            };
            let v = match referenced.value {
                Some(v) => v,
                None => return Ok(()),
            };
            let a = match client.available.checked_sub(v) {
                Some(a) => a,
                None => return Err(LedgerError::Overflow),
            };
            let h = match client.held.checked_add(v) {
                Some(h) => h,
                None => return Err(LedgerError::Overflow),
            };
            client.txns_under_dispute.insert(tx);
            client.available = a;
            client.held = h;
            Ok(())
        },
        TransactionType::Resolve => {
            let referenced = match store.query(tx) {
                Some(rec) => rec,
                None => return Ok(()),
            };
            if !client.txns_under_dispute.contains(&tx) {
                return Ok(());
            }
            let v = match referenced.value {
                Some(v) => v,
                None => return Ok(()),
            };
            let h = match client.held.checked_sub(v) {
                Some(h) => h,
                None => return Err(LedgerError::Overflow),
            };
            let a = match client.available.checked_add(v) {
                Some(a) => a,
                None => return Err(LedgerError::Overflow),
            };
            client.txns_under_dispute.remove(&tx);
            client.held = h;
            client.available = a;
            Ok(())
        },
        TransactionType::Chargeback => {
            let referenced = match store.query(tx) {
                Some(rec) => rec,
                None => return Ok(()),
            };
            if !client.txns_under_dispute.contains(&tx) {
                return Ok(());
            }
            let v = match referenced.value {
                Some(v) => v,
                None => return Ok(()),
            };
            let h = match client.held.checked_sub(v) {
                Some(h) => h,
                None => return Err(LedgerError::Overflow),
            };
            client.txns_under_dispute.remove(&tx);
            client.held = h;
            client.locked = true;
            Ok(())
        },
    }
}

/// Applies one record: the client it names becomes known, then its state
/// and the store change as `step` says. On an error only the registration
/// of the client remains.
pub fn apply(record: &TransactionRecord, ledger: &mut Ledger, store: &mut TxDatabase) -> (r: Result<
    (),
    LedgerError,
>)
    requires
        old(ledger)@.wf(),
        store_wf(old(store)@),
        record.wf(),
    ensures
        final(ledger)@.wf(),
        store_wf(final(store)@),
        match step(old(ledger)@, old(store)@, *record) {
            Ok((l, s)) => r is Ok && final(ledger)@ == l && final(store)@ == s,
            Err(e) => {
                &&& r == Err::<(), LedgerError>(e)
                &&& final(ledger)@ == old(ledger)@.registered(record.client_id)
                &&& final(store)@ == old(store)@
            },
        },
{
    let id = record.client_id;
    ledger.get_or_create(id);
    proof {
        lemma_registered_wf(old(ledger)@, id);
        lemma_step_wf(old(ledger)@, old(store)@, *record);
    }
    let ghost l1 = ledger@;
    let mut client = ledger.take_out(id);
    let res = apply_to_client(record, &mut client, store);
    ledger.put_back(id, client);
    proof {
        if res is Err {
            assert(ledger@.clients =~= l1.clients);
        } else {
            assert(ledger@.clients =~= l1.clients.insert(id, client@));
        }
    }
    res
}

proof fn lemma_run_err_stays(l: LedgerView, s: Store, rs: Seq<TransactionRecord>, n: int)
    requires
        0 <= n <= rs.len(),
        run(l, s, rs.take(n)) is Err,
    ensures
        run(l, s, rs) == run(l, s, rs.take(n)),
    decreases rs.len() - n,
{
    if n < rs.len() {
        assert(rs.take(n + 1).drop_last() =~= rs.take(n));
        lemma_run_err_stays(l, s, rs, n + 1);
    } else {
        assert(rs.take(n) =~= rs);
    }
}

/// Applies the records in order and stops at the first error.
pub fn handle_transactions(
    records: &Vec<TransactionRecord>,
    ledger: &mut Ledger,
    store: &mut TxDatabase,
) -> (r: Result<(), LedgerError>)
    requires
        old(ledger)@.wf(),
        store_wf(old(store)@),
        records_wf(records@),
    ensures
        final(ledger)@.wf(),
        store_wf(final(store)@),
        match run(old(ledger)@, old(store)@, records@) {
            Ok((l, s)) => r is Ok && final(ledger)@ == l && final(store)@ == s,
            Err(e) => r == Err::<(), LedgerError>(e),
        },
{
    let ghost l0 = ledger@;
    let ghost s0 = store@;
    let mut i: usize = 0;
    assert(records@.take(0) =~= Seq::<TransactionRecord>::empty());
    while i < records.len()
        invariant
            i <= records.len(),
            l0 == old(ledger)@,
            s0 == old(store)@,
            ledger@.wf(),
            store_wf(store@),
            records_wf(records@),
            run(l0, s0, records@.take(i as int)) == Ok::<(LedgerView, Store), LedgerError>(
                (ledger@, store@),
            ),
        decreases records.len() - i,
    {
        let ghost prefix = records@.take(i as int);
        assert(records@.take(i as int + 1).drop_last() =~= prefix);
        assert(records@.take(i as int + 1).last() == records@[i as int]);
        assert(records@[i as int].wf());
        let ghost lb = ledger@;
        let ghost sb = store@;
        let res = apply(&records[i], ledger, store);
        match res {
            Ok(()) => {},
            Err(e) => {
                proof {
                    assert(run(l0, s0, records@.take(i as int + 1)) == step(
                        lb,
                        sb,
                        records@[i as int],
                    ));
                    lemma_run_err_stays(l0, s0, records@, i as int + 1);
                }
                return Err(e);
            },
        }
        i = i + 1;
    }
    assert(records@.take(i as int) =~= records@);
    Ok(())
}

} // verus!
