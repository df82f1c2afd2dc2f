//! The transaction domain: client and transaction identifiers and the five
//! transaction kinds the engine accepts.

use vstd::prelude::*;
use crate::money::Money;

verus! {

/// Id identifying the client issuing the transaction.
#[derive(Debug, PartialEq, Eq, Structural, Hash, Clone, Copy)]
pub struct ClientId(u16);

impl View for ClientId {
    type V = u16;

    closed spec fn view(&self) -> u16 {
        self.0
    }
}

impl ClientId {
    /// The client id with the given raw value.
    pub closed spec fn spec_new(id: u16) -> ClientId {
        ClientId(id)
    }

    pub fn new(id: u16) -> (r: Self)
        ensures
            r@ == id,
            r == ClientId::spec_new(id),
    {
        Self(id)
    }
}

/// The raw value of a constructed client id.
pub broadcast proof fn lemma_client_id_spec_new(id: u16)
    ensures
        (#[trigger] ClientId::spec_new(id))@ == id,
{
}

impl From<ClientId> for u16 {
    fn from(value: ClientId) -> (r: Self)
        ensures
            r == value@,
    {
        value.0
    }
}

impl vstd::std_specs::convert::FromSpecImpl<ClientId> for u16 {
    open spec fn obeys_from_spec() -> bool {
        true
    }

    open spec fn from_spec(value: ClientId) -> u16 {
        value@
    }
}

/// The unique id of a transaction, used to reference a deposit from disputes,
/// resolves and chargebacks.
#[derive(Debug, PartialEq, Eq, Structural, Clone, Copy, Hash)]
pub struct TxId(u32);

impl View for TxId {
    type V = u32;

    closed spec fn view(&self) -> u32 {
        self.0
    }
}

impl TxId {
    /// The transaction id with the given raw value.
    pub closed spec fn spec_new(id: u32) -> TxId {
        TxId(id)
    }

    pub fn new(id: u32) -> (r: Self)
        ensures
            r@ == id,
            r == TxId::spec_new(id),
    {
        Self(id)
    }
}

/// The raw value of a constructed transaction id.
pub broadcast proof fn lemma_tx_id_spec_new(id: u32)
    ensures
        (#[trigger] TxId::spec_new(id))@ == id,
{
}

impl From<TxId> for u32 {
    fn from(value: TxId) -> (r: Self)
        ensures
            r == value@,
    {
        value.0
    }
}

impl vstd::std_specs::convert::FromSpecImpl<TxId> for u32 {
    open spec fn obeys_from_spec() -> bool {
        true
    }

    open spec fn from_spec(value: TxId) -> u32 {
        value@
    }
}

/// Transactions are the orders provided to the engine.
#[derive(Debug, Clone, Copy, PartialEq, Eq, Structural)]
pub enum Transaction {
    Deposit(Deposit),
    Withdrawal(Withdrawal),
    Dispute(Dispute),
    Resolve(Resolve),
    Chargeback(Chargeback),
}

/// A deposit of a positive amount, credited to the client's available funds.
#[derive(Debug, Clone, Copy, PartialEq, Eq, Structural)]
pub struct Deposit {
    client_id: ClientId,
    tx_id: TxId,
    amount: Money,
}

impl Deposit {
    /// The deposit with the given parts.
    pub closed spec fn spec_new(client_id: ClientId, tx_id: TxId, amount: Money) -> Deposit {
        Deposit { client_id, tx_id, amount }
    }

    /// A deposit order; the amount must be positive.
    pub fn new(client_id: ClientId, tx_id: TxId, amount: Money) -> (r: Result<Self, String>)
        ensures
            amount.units > 0 <==> r is Ok,
            r is Err ==> r->Err_0@ == "the deposited amount must be positive"@,
            r is Ok ==> r->Ok_0 == Deposit::spec_new(client_id, tx_id, amount),
            r is Ok ==> r->Ok_0.spec_client_id() == client_id && r->Ok_0.spec_tx_id() == tx_id
                && r->Ok_0.spec_amount() == amount,
    {
        if amount.is_zero() {
            return Err("the deposited amount must be positive".to_owned());
        }
        Ok(Self { client_id, tx_id, amount })
    }

    pub closed spec fn spec_client_id(&self) -> ClientId {
        self.client_id
    }

    pub closed spec fn spec_tx_id(&self) -> TxId {
        self.tx_id
    }

    pub closed spec fn spec_amount(&self) -> Money {
        self.amount
    }

    pub fn client_id(&self) -> (r: ClientId)
        ensures
            r == self.spec_client_id(),
    {
        self.client_id
    }

    pub fn tx_id(&self) -> (r: TxId)
        ensures
            r == self.spec_tx_id(),
    {
        self.tx_id
    }

    pub fn amount(&self) -> (r: Money)
        ensures
            r == self.spec_amount(),
    {
        self.amount
    }
}

/// A withdrawal of a positive amount, debited from the client's available
/// funds.
#[derive(Debug, Clone, Copy, PartialEq, Eq, Structural)]
pub struct Withdrawal {
    client_id: ClientId,
    tx_id: TxId,
    amount: Money,
}

impl Withdrawal {
    /// The withdrawal with the given parts.
    pub closed spec fn spec_new(client_id: ClientId, tx_id: TxId, amount: Money) -> Withdrawal {
        Withdrawal { client_id, tx_id, amount }
    }

    /// A withdrawal order; the amount must be positive.
    pub fn new(client_id: ClientId, tx_id: TxId, amount: Money) -> (r: Result<Self, String>)
        ensures
            amount.units > 0 <==> r is Ok,
            r is Err ==> r->Err_0@ == "the withdrawn amount must be positive"@,
            r is Ok ==> r->Ok_0 == Withdrawal::spec_new(client_id, tx_id, amount),
            r is Ok ==> r->Ok_0.spec_client_id() == client_id && r->Ok_0.spec_tx_id() == tx_id
                && r->Ok_0.spec_amount() == amount,
    {
        if amount.is_zero() {
            return Err("the withdrawn amount must be positive".to_owned());
        }
        Ok(Self { client_id, tx_id, amount })
    }

    pub closed spec fn spec_client_id(&self) -> ClientId {
        self.client_id
    }

    pub closed spec fn spec_tx_id(&self) -> TxId {
        self.tx_id
    }

    pub closed spec fn spec_amount(&self) -> Money {
        self.amount
    }

    pub fn client_id(&self) -> (r: ClientId)
        ensures
            r == self.spec_client_id(),
    {
        self.client_id
    }

    pub fn tx_id(&self) -> (r: TxId)
        ensures
            r == self.spec_tx_id(),
    {
        self.tx_id
    }

    pub fn amount(&self) -> (r: Money)
        ensures
            r == self.spec_amount(),
    {
        self.amount
    }
}

/// The parts of a constructed deposit.
pub broadcast proof fn lemma_deposit_spec_new(client_id: ClientId, tx_id: TxId, amount: Money)
    ensures
        (#[trigger] Deposit::spec_new(client_id, tx_id, amount)).spec_client_id() == client_id,
        Deposit::spec_new(client_id, tx_id, amount).spec_tx_id() == tx_id,
        Deposit::spec_new(client_id, tx_id, amount).spec_amount() == amount,
{
}

/// The parts of a constructed withdrawal.
pub broadcast proof fn lemma_withdrawal_spec_new(client_id: ClientId, tx_id: TxId, amount: Money)
    ensures
        (#[trigger] Withdrawal::spec_new(client_id, tx_id, amount)).spec_client_id() == client_id,
        Withdrawal::spec_new(client_id, tx_id, amount).spec_tx_id() == tx_id,
        Withdrawal::spec_new(client_id, tx_id, amount).spec_amount() == amount,
{
}

/// An order to put the funds of an accepted deposit on hold.
#[derive(Debug, Clone, Copy, PartialEq, Eq, Structural)]
pub struct Dispute {
    client_id: ClientId,
    disputed_tx: TxId,
}

impl Dispute {
    /// The order with the given parts.
    pub closed spec fn spec_new(client_id: ClientId, disputed_tx: TxId) -> Dispute {
        Dispute { client_id, disputed_tx }
    }

    pub fn new(client_id: ClientId, disputed_tx: TxId) -> (r: Self)
        ensures
            r == Dispute::spec_new(client_id, disputed_tx),
            r.spec_client_id() == client_id,
            r.spec_disputed_tx_id() == disputed_tx,
    {
        Self { client_id, disputed_tx }
    }

    pub closed spec fn spec_client_id(&self) -> ClientId {
        self.client_id
    }

    pub closed spec fn spec_disputed_tx_id(&self) -> TxId {
        self.disputed_tx
    }

    pub fn client_id(&self) -> (r: ClientId)
        ensures
            r == self.spec_client_id(),
    {
        self.client_id
    }

    pub fn disputed_tx_id(&self) -> (r: TxId)
        ensures
            r == self.spec_disputed_tx_id(),
    {
        self.disputed_tx
    }
}

/// An order to release the held funds of a disputed deposit back to the
/// client's available funds.
#[derive(Debug, Clone, Copy, PartialEq, Eq, Structural)]
pub struct Resolve {
    client_id: ClientId,
    resolved_tx: TxId,
}

impl Resolve {
    /// The order with the given parts.
    pub closed spec fn spec_new(client_id: ClientId, resolved_tx: TxId) -> Resolve {
        Resolve { client_id, resolved_tx }
    }

    pub fn new(client_id: ClientId, resolved_tx: TxId) -> (r: Self)
        ensures
            r == Resolve::spec_new(client_id, resolved_tx),
            r.spec_client_id() == client_id,
            r.spec_resolved_tx_id() == resolved_tx,
    {
        Self { client_id, resolved_tx }
    }

    pub closed spec fn spec_client_id(&self) -> ClientId {
        self.client_id
    }

    pub closed spec fn spec_resolved_tx_id(&self) -> TxId {
        self.resolved_tx
    }

    pub fn client_id(&self) -> (r: ClientId)
        ensures
            r == self.spec_client_id(),
    {
        self.client_id
    }

    pub fn resolved_tx_id(&self) -> (r: TxId)
        ensures
            r == self.spec_resolved_tx_id(),
    {
        self.resolved_tx
    }
}

/// An order to withdraw the held funds of a disputed deposit for good and
/// lock the account.
#[derive(Debug, Clone, Copy, PartialEq, Eq, Structural)]
pub struct Chargeback {
    client_id: ClientId,
    reverted_tx: TxId,
}

impl Chargeback {
    /// The order with the given parts.
    pub closed spec fn spec_new(client_id: ClientId, reverted_tx: TxId) -> Chargeback {
        Chargeback { client_id, reverted_tx }
    }

    pub fn new(client_id: ClientId, reverted_tx: TxId) -> (r: Self)
        ensures
            r == Chargeback::spec_new(client_id, reverted_tx),
            r.spec_client_id() == client_id,
            r.spec_reverted_tx_id() == reverted_tx,
    {
        Self { client_id, reverted_tx }
    }

    pub closed spec fn spec_client_id(&self) -> ClientId {
        self.client_id
    }

    pub closed spec fn spec_reverted_tx_id(&self) -> TxId {
        self.reverted_tx
    }

    pub fn client_id(&self) -> (r: ClientId)
        ensures
            r == self.spec_client_id(),
    {
        self.client_id
    }

    pub fn reverted_tx_id(&self) -> (r: TxId)
        ensures
            r == self.spec_reverted_tx_id(),
    {
        self.reverted_tx
    }
}

/// The parts of a constructed dispute order.
pub broadcast proof fn lemma_dispute_spec_new(client_id: ClientId, disputed_tx: TxId)
    ensures
        (#[trigger] Dispute::spec_new(client_id, disputed_tx)).spec_client_id() == client_id,
        Dispute::spec_new(client_id, disputed_tx).spec_disputed_tx_id() == disputed_tx,
{
}

/// The parts of a constructed resolve order.
pub broadcast proof fn lemma_resolve_spec_new(client_id: ClientId, resolved_tx: TxId)
    ensures
        (#[trigger] Resolve::spec_new(client_id, resolved_tx)).spec_client_id() == client_id,
        Resolve::spec_new(client_id, resolved_tx).spec_resolved_tx_id() == resolved_tx,
{
}

/// The parts of a constructed chargeback order.
pub broadcast proof fn lemma_chargeback_spec_new(client_id: ClientId, reverted_tx: TxId)
    ensures
        (#[trigger] Chargeback::spec_new(client_id, reverted_tx)).spec_client_id() == client_id,
        Chargeback::spec_new(client_id, reverted_tx).spec_reverted_tx_id() == reverted_tx,
{
}

impl Transaction {
    /// The client a transaction belongs to, as a raw id.
    pub open spec fn spec_client(&self) -> u16 {
        match self {
            Transaction::Deposit(d) => d.spec_client_id()@,
            Transaction::Withdrawal(w) => w.spec_client_id()@,
            Transaction::Dispute(d) => d.spec_client_id()@,
            Transaction::Resolve(r) => r.spec_client_id()@,
            Transaction::Chargeback(c) => c.spec_client_id()@,
        }
    }

    /// The id of the transaction itself (for deposits and withdrawals), or of
    /// the deposit it references (for disputes, resolves and chargebacks).
    pub open spec fn spec_tx(&self) -> u32 {
        match self {
            Transaction::Deposit(d) => d.spec_tx_id()@,
            Transaction::Withdrawal(w) => w.spec_tx_id()@,
            Transaction::Dispute(d) => d.spec_disputed_tx_id()@,
            Transaction::Resolve(r) => r.spec_resolved_tx_id()@,
            Transaction::Chargeback(c) => c.spec_reverted_tx_id()@,
        }
    }

    /// The client a transaction belongs to.
    pub fn client_id(&self) -> (r: ClientId)
        ensures
            r@ == self.spec_client(),
    {
        match self {
            Transaction::Deposit(d) => d.client_id(),
            Transaction::Withdrawal(w) => w.client_id(),
            Transaction::Dispute(d) => d.client_id(),
            Transaction::Resolve(r) => r.client_id(),
            Transaction::Chargeback(c) => c.client_id(),
        }
    }
}

} // verus!
