use vstd::prelude::*;

use crate::amount::{lemma_sum_units, sum_of, Amount};
use crate::ledger::{ClientState, ClientView, Ledger, LedgerView};
use crate::processor::{handle_transactions, records_wf, run, LedgerError};
use crate::store::{ClientId, TransactionRecord, TxDatabase};

verus! {

/// One output row: a client's balances and its total.
#[derive(Clone, Copy, Debug, PartialEq, Eq, Structural)]
pub struct ClientRecord {
    pub client_id: ClientId,
    pub available: Amount,
    pub held: Amount,
    pub total: Amount,
    pub locked: bool,
}

/// The row for client `id` in state `c`, or `None` where the total is not
/// representable.
pub open spec fn row_of(id: ClientId, c: ClientView) -> Option<ClientRecord> {
    match sum_of(c.held, c.available) {
        Some(t) => Some(
            ClientRecord {
                client_id: id,
                available: c.available,
                held: c.held,
                total: t,
                locked: c.locked,
            },
        ),
        None => None,
    }
}

impl ClientRecord {
    pub fn from_id_and_state(id: &ClientId, state: &ClientState) -> (r: Result<
        ClientRecord,
        LedgerError,
    >)
        requires
            state@.wf(),
        ensures
            match row_of(*id, state@) {
                Some(row) => r == Ok::<ClientRecord, LedgerError>(row),
                None => r == Err::<ClientRecord, LedgerError>(LedgerError::Overflow),
            },
            r matches Ok(row) ==> row.total.units() == row.available.units() + row.held.units(),
    {
        proof {
            if sum_of(state.held, state.available) is Some {
                lemma_sum_units(state.held, state.available);
            }
        }
        match state.held.checked_add(state.available) {
            Some(total) => Ok(
                ClientRecord {
                    client_id: *id,
                    available: state.available,
                    held: state.held,
                    total,
                    locked: state.locked,
                },
            ),
            None => Err(LedgerError::Overflow),
        }
    }
}

/// Whether every client of `l` has a representable total.
pub open spec fn all_rows_exist(l: LedgerView) -> bool {
    forall|i: int| 0 <= i < l.order.len() ==> (#[trigger] row_of(l.order[i], l.clients[l.order[i]])) is Some
}

/// One row per client, in the order in which the clients were first seen.
pub fn client_records(ledger: &Ledger) -> (r: Result<Vec<ClientRecord>, LedgerError>)
    requires
        ledger@.wf(),
    ensures
        r is Ok <==> all_rows_exist(ledger@),
        r is Err ==> r == Err::<Vec<ClientRecord>, LedgerError>(LedgerError::Overflow),
        r matches Ok(rows) ==> {
            &&& rows@.len() == ledger@.order.len()
            &&& forall|i: int|
                0 <= i < rows@.len() ==> Some(#[trigger] rows@[i]) == row_of(
                    ledger@.order[i],
                    ledger@.clients[ledger@.order[i]],
                )
            &&& forall|i: int|
                0 <= i < rows@.len() ==> (#[trigger] rows@[i]).total.units()
                    == rows@[i].available.units() + rows@[i].held.units()
        },
{
    let order = ledger.seen_clients();
    let mut rows: Vec<ClientRecord> = Vec::new();
    let mut i: usize = 0;
    while i < order.len()
        invariant
            ledger@.wf(),
            order@ == ledger@.order,
            i <= order.len(),
            rows@.len() == i,
            forall|j: int|
                0 <= j < i ==> Some(#[trigger] rows@[j]) == row_of(
                    ledger@.order[j],
                    ledger@.clients[ledger@.order[j]],
                ),
            forall|j: int|
                0 <= j < i ==> (#[trigger] rows@[j]).total.units() == rows@[j].available.units()
                    + rows@[j].held.units(),
        decreases order.len() - i,
    {
        let id = order[i];
        assert(ledger@.order.contains(id));
        let state = match ledger.snapshot(id) {
            Some(s) => s,
            None => return Err(LedgerError::Overflow),
        };
        match ClientRecord::from_id_and_state(&id, state) {
            Ok(row) => rows.push(row),
            Err(e) => {
                assert(row_of(ledger@.order[i as int], ledger@.clients[ledger@.order[i as int]])
                    is None);
                return Err(e);
            },
        }
        i = i + 1;
    }
    assert forall|j: int| 0 <= j < ledger@.order.len() implies (#[trigger] row_of(
        ledger@.order[j],
        ledger@.clients[ledger@.order[j]],
    )) is Some by {
        assert(Some(rows@[j]) == row_of(ledger@.order[j], ledger@.clients[ledger@.order[j]]));
    }
    Ok(rows)
}

/// The output rows of `l`, if every total is representable.
pub open spec fn rows_of(l: LedgerView) -> Result<Seq<ClientRecord>, LedgerError> {
    if all_rows_exist(l) {
        Ok(Seq::new(l.order.len(), |i: int| row_of(l.order[i], l.clients[l.order[i]])->0))
    } else {
        Err(LedgerError::Overflow)
    }
}

/// Replays `records` on an empty ledger and returns one row per client, in
/// first-seen order, or the first error.
pub fn process(records: &Vec<TransactionRecord>) -> (r: Result<Vec<ClientRecord>, LedgerError>)
    requires
        records_wf(records@),
    ensures
        match run(LedgerView::empty(), Map::empty(), records@) {
            Ok((l, s)) => match rows_of(l) {
                Ok(rows) => r matches Ok(v) && v@ == rows,
                Err(e) => r == Err::<Vec<ClientRecord>, LedgerError>(e),
            },
            Err(e) => r == Err::<Vec<ClientRecord>, LedgerError>(e),
        },
        r matches Ok(rows) ==> forall|i: int|
            0 <= i < rows@.len() ==> (#[trigger] rows@[i]).total.units()
                == rows@[i].available.units() + rows@[i].held.units(),
{
    let mut ledger = Ledger::new();
    let mut store = TxDatabase::new();
    handle_transactions(records, &mut ledger, &mut store)?;
    let rows = client_records(&ledger)?;
    proof {
        let expected = Seq::new(
            ledger@.order.len(),
            |i: int| row_of(ledger@.order[i], ledger@.clients[ledger@.order[i]])->0,
        );
        assert(rows@ =~= expected);
    }
    Ok(rows)
}

} // verus!
