use std::collections::HashMap;
use vstd::prelude::*;
use vstd::std_specs::hash::obeys_key_model;

use crate::amount::Amount;

verus! {

broadcast use vstd::std_specs::hash::group_hash_axioms;

pub type TransactionId = u32;

pub type ClientId = u16;

#[derive(Clone, Copy, Debug, PartialEq, Eq, Structural)]
pub enum TransactionType {
    Deposit,
    Withdrawal,
    Dispute,
    Resolve,
    Chargeback,
}

impl TransactionType {
    /// Deposits and withdrawals carry an amount of their own and are kept in
    /// the record store.
    pub open spec fn carries_amount(self) -> bool {
        self is Deposit || self is Withdrawal
    }
}

/// One input row. For a dispute, resolve or chargeback `transaction_id`
/// names the deposit or withdrawal it refers to.
#[derive(Clone, Copy, Debug, PartialEq, Eq, Structural)]
pub struct TransactionRecord {
    pub transaction_type: TransactionType,
    pub client_id: ClientId,
    pub transaction_id: TransactionId,
    pub value: Option<Amount>,
}

impl TransactionRecord {
    /// Its amount, if any, is a well-formed decimal.
    pub open spec fn wf(self) -> bool {
        self.value matches Some(v) ==> v.wf()
    }

    /// A record that the store may hold: one with an amount, kept under its
    /// own identifier.
    pub open spec fn storable(self) -> bool {
        &&& self.value is Some
        &&& self.wf()
    }
}

/// The records that carried an amount, by transaction identifier.
pub struct TxDatabase {
    db: HashMap<TransactionId, TransactionRecord>,
}

impl View for TxDatabase {
    type V = Map<TransactionId, TransactionRecord>;

    closed spec fn view(&self) -> Map<TransactionId, TransactionRecord> {
        self.db@
    }
}

/// Every stored record has an amount and sits under its own identifier.
pub open spec fn store_wf(s: Map<TransactionId, TransactionRecord>) -> bool {
    forall|k: TransactionId| #[trigger]
        s.contains_key(k) ==> s[k].storable() && s[k].transaction_id == k
}

impl TxDatabase {
    pub fn new() -> (r: TxDatabase)
        ensures
            r@ == Map::<TransactionId, TransactionRecord>::empty(),
            store_wf(r@),
    {
        TxDatabase { db: HashMap::new() }
    }

    /// The record stored under `tx_id`, if any.
    pub fn query(&self, tx_id: TransactionId) -> (r: Option<TransactionRecord>)
        ensures
            r == (if self@.contains_key(tx_id) {
                Some(self@[tx_id])
            } else {
                None::<TransactionRecord>
            }),
    {
        proof {
            assert(obeys_key_model::<TransactionId>());
        }
        match self.db.get(&tx_id) {
            Some(rec) => Some(*rec),
            None => None,
        }
    }

    /// Stores `record` under its identifier, replacing any earlier entry.
    pub fn save(&mut self, record: TransactionRecord)
        ensures
            final(self)@ == old(self)@.insert(record.transaction_id, record),
    {
        proof {
            assert(obeys_key_model::<TransactionId>());
        }
        self.db.insert(record.transaction_id, record);
    }
}

} // verus!
