use std::collections::{HashMap, HashSet};
use vstd::prelude::*;
use vstd::std_specs::hash::obeys_key_model;

use crate::amount::Amount;
use crate::store::{ClientId, TransactionId};

verus! {

broadcast use vstd::std_specs::hash::group_hash_axioms;

/// The balances of one client, with the transactions it has under dispute.
pub struct ClientState {
    pub available: Amount,
    pub held: Amount,
    pub locked: bool,
    pub txns_under_dispute: HashSet<TransactionId>,
}

/// What a client state holds, as mathematical values.
pub struct ClientView {
    pub available: Amount,
    pub held: Amount,
    pub locked: bool,
    pub disputed: Set<TransactionId>,
}

impl ClientView {
    /// A client seen for the first time: nothing available or held, unlocked,
    /// nothing disputed.
    pub open spec fn fresh() -> ClientView {
        ClientView {
            available: Amount { mantissa: 0, scale: 0 },
            held: Amount { mantissa: 0, scale: 0 },
            locked: false,
            disputed: Set::empty(),
        }
    }

    pub open spec fn wf(self) -> bool {
        self.available.wf() && self.held.wf()
    }
}

impl View for ClientState {
    type V = ClientView;

    open spec fn view(&self) -> ClientView {
        ClientView {
            available: self.available,
            held: self.held,
            locked: self.locked,
            disputed: self.txns_under_dispute@,
        }
    }
}

impl ClientState {
    pub fn new() -> (r: ClientState)
        ensures
            r@ == ClientView::fresh(),
    {
        ClientState {
            available: Amount::zero(),
            held: Amount::zero(),
            locked: false,
            txns_under_dispute: HashSet::new(),
        }
    }
}

/// Every client ever referenced, with its state, and the order in which
/// the clients were first seen.
pub struct Ledger {
    states: HashMap<ClientId, ClientState>,
    seen_clients: Vec<ClientId>,
}

pub struct LedgerView {
    pub clients: Map<ClientId, ClientView>,
    pub order: Seq<ClientId>,
}

impl LedgerView {
    pub open spec fn empty() -> LedgerView {
        LedgerView { clients: Map::empty(), order: Seq::empty() }
    }

    /// The order lists each known client exactly once, and every balance is
    /// a well-formed decimal.
    pub open spec fn wf(self) -> bool {
        &&& self.order.no_duplicates()
        &&& forall|c: ClientId| #[trigger]
            self.clients.contains_key(c) <==> self.order.contains(c)
        &&& forall|c: ClientId| #[trigger] self.clients.contains_key(c) ==> self.clients[c].wf()
    }

    /// `self` with `id` known: unchanged if it was, else with a fresh state
    /// and `id` at the end of the order.
    pub open spec fn registered(self, id: ClientId) -> LedgerView {
        if self.clients.contains_key(id) {
            self
        } else {
            LedgerView {
                clients: self.clients.insert(id, ClientView::fresh()),
                order: self.order.push(id),
            }
        }
    }
}

impl View for Ledger {
    type V = LedgerView;

    closed spec fn view(&self) -> LedgerView {
        LedgerView {
            clients: self.states@.map_values(|c: ClientState| c@),
            order: self.seen_clients@,
        }
    }
}

impl Ledger {
    pub fn new() -> (r: Ledger)
        ensures
            r@ == LedgerView::empty(),
            r@.wf(),
    {
        let r = Ledger { states: HashMap::new(), seen_clients: Vec::new() };
        assert(r@.clients =~= Map::empty());
        r
    }

    /// Makes `id` known, with a fresh state the first time; says whether it
    /// was new.
    pub fn get_or_create(&mut self, id: ClientId) -> (created: bool)
        ensures
            created == !old(self)@.clients.contains_key(id),
            final(self)@ == old(self)@.registered(id),
    {
        proof {
            assert(obeys_key_model::<ClientId>());
        }
        if self.states.contains_key(&id) {
            false
        } else {
            self.states.insert(id, ClientState::new());
            self.seen_clients.push(id);
            assert(self@.clients =~= old(self)@.clients.insert(id, ClientView::fresh()));
            true
        }
    }

    /// The state of a known client.
    pub fn snapshot(&self, id: ClientId) -> (r: Option<&ClientState>)
        ensures
            r matches Some(c) ==> self@.clients.contains_key(id) && c@ == self@.clients[id],
            r is None ==> !self@.clients.contains_key(id),
    {
        proof {
            assert(obeys_key_model::<ClientId>());
        }
        self.states.get(&id)
    }

    /// The clients in the order in which they were first seen.
    pub fn seen_clients(&self) -> (r: &Vec<ClientId>)
        ensures
            r@ == self@.order,
    {
        &self.seen_clients
    }

    /// Takes the state of a known client out, to be put back with
    /// `put_back`.
    pub(crate) fn take_out(&mut self, id: ClientId) -> (r: ClientState)
        requires
            old(self)@.clients.contains_key(id),
        ensures
            r@ == old(self)@.clients[id],
            final(self)@.clients == old(self)@.clients.remove(id),
            final(self)@.order == old(self)@.order,
    {
        proof {
            assert(obeys_key_model::<ClientId>());
        }
        let r = self.states.remove(&id);
        assert(self@.clients =~= old(self)@.clients.remove(id));
        match r {
            Some(c) => c,
            None => ClientState::new(),
        }
    }

    pub(crate) fn put_back(&mut self, id: ClientId, state: ClientState)
        ensures
            final(self)@.clients == old(self)@.clients.insert(id, state@),
            final(self)@.order == old(self)@.order,
    {
        proof {
            assert(obeys_key_model::<ClientId>());
        }
        let ghost v = state@;
        self.states.insert(id, state);
        assert(self@.clients =~= old(self)@.clients.insert(id, v));
    }
}

} // verus!
