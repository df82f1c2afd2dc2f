//! The engine: dispatching transactions to per-client accounts and folding a
//! whole stream into the final account map.
//!
//! The semantics of a stream is the mathematical fold [`run_from`] of
//! [`step_map`] over the client-to-account map; the executable engines (the
//! sequential one here, the sharded one built on the same dispatch) are
//! proved to compute exactly that fold.

use vstd::prelude::*;
use std::collections::HashMap;
use crate::account::{AccountState, AccountError, AccountV, account_inv, new_account,
    deposit_allowed,
    deposit_applied, withdraw_allowed, withdraw_applied, dispute_allowed, dispute_applied,
    resolve_allowed, resolve_applied, chargeback_allowed, chargeback_applied};
use crate::domain::{Transaction, Deposit, Withdrawal, Dispute, Resolve, Chargeback};
use crate::error::{Error, processing_error};
use crate::output::{TransactionRecord, record_of};

verus! {

broadcast use vstd::std_specs::hash::group_hash_axioms, vstd::seq_lib::group_seq_properties;

/// Whether the current account map accepts the transaction. A deposit for an
/// unknown client is applied to a fresh zero account; every other kind
/// requires the client's account to exist already.
pub open spec fn tx_allowed(m: Map<u16, AccountV>, t: Transaction) -> bool {
    let c = t.spec_client();
    match t {
        Transaction::Deposit(d) => {
            let a = if m.contains_key(c) {
                m[c]
            } else {
                new_account()
            };
            deposit_allowed(a, d.spec_amount().units as int)
        },
        Transaction::Withdrawal(w) => m.contains_key(c) && withdraw_allowed(
            m[c],
            w.spec_amount().units as int,
        ),
        Transaction::Dispute(_) => m.contains_key(c) && dispute_allowed(m[c], t.spec_tx()),
        Transaction::Resolve(_) => m.contains_key(c) && resolve_allowed(m[c], t.spec_tx()),
        Transaction::Chargeback(_) => m.contains_key(c) && chargeback_allowed(m[c], t.spec_tx()),
    }
}

/// The account map after one transaction: the client's account is transformed
/// when the transaction is accepted, and nothing changes when it is rejected.
pub open spec fn step_map(m: Map<u16, AccountV>, t: Transaction) -> Map<u16, AccountV> {
    let c = t.spec_client();
    if tx_allowed(m, t) {
        match t {
            Transaction::Deposit(d) => {
                let a = if m.contains_key(c) {
                    m[c]
                } else {
                    new_account()
                };
                m.insert(c, deposit_applied(a, t.spec_tx(), d.spec_amount().units as int))
            },
            Transaction::Withdrawal(w) => m.insert(
                c,
                withdraw_applied(m[c], w.spec_amount().units as int),
            ),
            Transaction::Dispute(_) => m.insert(c, dispute_applied(m[c], t.spec_tx())),
            Transaction::Resolve(_) => m.insert(c, resolve_applied(m[c], t.spec_tx())),
            Transaction::Chargeback(_) => m.insert(c, chargeback_applied(m[c], t.spec_tx())),
        }
    } else {
        m
    }
}

/// Whether the transaction creates the client's account: only an accepted
/// deposit for a so-far-unknown client does.
pub open spec fn step_creates(m: Map<u16, AccountV>, t: Transaction) -> bool {
    &&& t is Deposit
    &&& tx_allowed(m, t)
    &&& !m.contains_key(t.spec_client())
}

/// The exact description a rejected transaction's processing error carries,
/// decided — like the rejection itself — by the client's account alone: an
/// operation other than a deposit on an absent account names its own kind,
/// and an operation on an existing account carries the account's reason.
pub open spec fn rejection_message(m: Map<u16, AccountV>, t: Transaction) -> Seq<char> {
    let c = t.spec_client();
    match t {
        Transaction::Deposit(_) => if m.contains_key(c) && m[c].locked {
            AccountError::Locked.spec_message()
        } else {
            AccountError::BalanceOverflow.spec_message()
        },
        Transaction::Withdrawal(_) => if !m.contains_key(c) {
            "withdrawal from a client without account"@
        } else if m[c].locked {
            AccountError::Locked.spec_message()
        } else {
            AccountError::InsufficientFunds.spec_message()
        },
        Transaction::Dispute(_) => if !m.contains_key(c) {
            "dispute from a client without account"@
        } else if m[c].locked {
            AccountError::Locked.spec_message()
        } else if !m[c].accepted.contains_key(t.spec_tx()) {
            AccountError::UnknownTransaction.spec_message()
        } else {
            AccountError::FundsAlreadyWithdrawn.spec_message()
        },
        Transaction::Resolve(_) => if !m.contains_key(c) {
            "resolve from a client without account"@
        } else if m[c].locked {
            AccountError::Locked.spec_message()
        } else {
            AccountError::UnknownOrUndisputed.spec_message()
        },
        Transaction::Chargeback(_) => if !m.contains_key(c) {
            "chargeback from a client without account"@
        } else if m[c].locked {
            AccountError::Locked.spec_message()
        } else {
            AccountError::UnknownOrUndisputed.spec_message()
        },
    }
}

/// The account map after a whole stream of transactions, applied in order.
pub open spec fn run_from(m: Map<u16, AccountV>, txs: Seq<Transaction>) -> Map<u16, AccountV>
    decreases txs.len(),
{
    if txs.len() == 0 {
        m
    } else {
        run_from(step_map(m, txs[0]), txs.skip(1))
    }
}

/// Which transactions of a stream are accepted, in order: the `i`-th flag is
/// decided by the fold of the transactions before the `i`-th.
pub open spec fn run_flags(m: Map<u16, AccountV>, txs: Seq<Transaction>) -> Seq<bool> {
    Seq::new(txs.len(), |i: int| tx_allowed(run_from(m, txs.take(i)), txs[i]))
}

/// Appending one transaction to a stream applies one more step to its fold.
pub proof fn lemma_run_from_snoc(m: Map<u16, AccountV>, txs: Seq<Transaction>, t: Transaction)
    ensures
        run_from(m, txs.push(t)) == step_map(run_from(m, txs), t),
    decreases txs.len(),
{
    let e = txs.push(t);
    assert(e[0] == if txs.len() == 0 { t } else { txs[0] });
    if txs.len() == 0 {
        assert(e.skip(1) =~= Seq::<Transaction>::empty());
        assert(run_from(m, e) == run_from(step_map(m, t), e.skip(1)));
    } else {
        assert(e.skip(1) =~= txs.skip(1).push(t));
        lemma_run_from_snoc(step_map(m, txs[0]), txs.skip(1), t);
    }
}

/// All accounts of a map are well-formed and the map is finite.
pub open spec fn accounts_wf(m: Map<u16, AccountV>) -> bool {
    &&& m.dom().finite()
    &&& forall|c: u16| m.contains_key(c) ==> account_inv(#[trigger] m[c])
}

/// The client-to-account mapping owned by one engine (or by one lane of the
/// sharded engine), together with the order in which accounts were created.
pub struct Accounts {
    map: HashMap<u16, AccountState>,
    ids: Vec<u16>,
}

impl Accounts {
    /// The mathematical account map this container holds.
    pub closed spec fn accounts(&self) -> Map<u16, AccountV> {
        Map::new(|c: u16| self.map@.contains_key(c), |c: u16| self.map@[c]@)
    }

    /// The clients with an account, in order of account creation.
    pub closed spec fn ids_seq(&self) -> Seq<u16> {
        self.ids@
    }

    /// Well-formedness: the creation order lists exactly the accounts, once
    /// each, and every account satisfies its invariant.
    pub open spec fn inv(&self) -> bool {
        &&& self.ids_seq().no_duplicates()
        &&& (forall|c: u16|
            #[trigger] self.accounts().contains_key(c) <==> self.ids_seq().contains(c))
        &&& accounts_wf(self.accounts())
    }

    /// An empty account map.
    pub fn new() -> (r: Accounts)
        ensures
            r.inv(),
            r.accounts() == Map::<u16, AccountV>::empty(),
            r.ids_seq() == Seq::<u16>::empty(),
    {
        let r = Accounts { map: HashMap::new(), ids: Vec::new() };
        proof {
            assert(r.accounts() =~= Map::<u16, AccountV>::empty());
            assert(r.accounts().dom() =~= Set::<u16>::empty());
        }
        r
    }

    /// How many accounts exist.
    pub fn len(&self) -> (r: usize)
        requires
            self.inv(),
        ensures
            r == self.ids_seq().len(),
    {
        self.ids.len()
    }

    /// The client id of the `i`-th account in creation order.
    pub fn id_at(&self, i: usize) -> (r: u16)
        requires
            self.inv(),
            i < self.ids_seq().len(),
        ensures
            r == self.ids_seq()[i as int],
    {
        self.ids[i]
    }

    /// Adds an account for a client that has none yet.
    pub fn insert_account(&mut self, client: u16, state: AccountState)
        requires
            old(self).inv(),
            !old(self).accounts().contains_key(client),
            account_inv(state@),
        ensures
            final(self).inv(),
            final(self).accounts() == old(self).accounts().insert(client, state@),
            final(self).ids_seq() == old(self).ids_seq().push(client),
    {
        let ghost pre = self.accounts();
        let ghost pre_ids = self.ids_seq();
        self.map.insert(client, state);
        self.ids.push(client);
        proof {
            assert(self.accounts() =~= pre.insert(client, state@));
            assert(self.accounts().dom() =~= pre.dom().insert(client));
            assert(!pre_ids.contains(client));
            assert(self.ids_seq().no_duplicates());
        }
    }

    /// Takes over every account of `other`, which must be disjoint from the
    /// accounts held so far; `other`'s accounts keep their relative creation
    /// order and follow the present ones.
    pub fn absorb(&mut self, other: Accounts)
        requires
            old(self).inv(),
            other.inv(),
            forall|c: u16|
                !(old(self).accounts().contains_key(c) && #[trigger] other.accounts().contains_key(
                    c,
                )),
        ensures
            final(self).inv(),
            final(self).ids_seq() == old(self).ids_seq() + other.ids_seq(),
            forall|c: u16|
                #[trigger] final(self).accounts().contains_key(c) <==> (old(
                    self,
                ).accounts().contains_key(c) || other.accounts().contains_key(c)),
            forall|c: u16|
                old(self).accounts().contains_key(c) ==> final(self).accounts()[c] == old(
                    self,
                ).accounts()[c],
            forall|c: u16|
                other.accounts().contains_key(c) ==> final(self).accounts()[c]
                    == other.accounts()[c],
    {
        let ghost m0 = old(self).accounts();
        let ghost ids0 = old(self).ids_seq();
        let ghost oacc = other.accounts();
        let ghost oids_g = other.ids_seq();
        let Accounts { map: mut omap, ids: oids } = other;
        proof {
            assert forall|j: int|
                0 <= j < oids_g.len() implies omap@.contains_key(#[trigger] oids_g[j])
                && omap@[oids_g[j]]@ == oacc[oids_g[j]] by {
                assert(oids_g.contains(oids_g[j]));
                assert(oacc.contains_key(oids_g[j]));
            }
        }
        let mut i: usize = 0;
        while i < oids.len()
            invariant
                oids@ == oids_g,
                i <= oids_g.len(),
                self.inv(),
                self.ids_seq() == ids0 + oids_g.take(i as int),
                ids0.no_duplicates(),
                oids_g.no_duplicates(),
                forall|c: u16| #[trigger] m0.contains_key(c) <==> ids0.contains(c),
                forall|c: u16| #[trigger] oacc.contains_key(c) <==> oids_g.contains(c),
                forall|c: u16| !(m0.contains_key(c) && #[trigger] oacc.contains_key(c)),
                forall|c: u16| oacc.contains_key(c) ==> account_inv(#[trigger] oacc[c]),
                forall|c: u16|
                    #[trigger] self.accounts().contains_key(c) <==> (m0.contains_key(c)
                        || oids_g.take(i as int).contains(c)),
                forall|c: u16|
                    m0.contains_key(c) ==> #[trigger] self.accounts()[c] == m0[c],
                forall|c: u16|
                    oids_g.take(i as int).contains(c) ==> #[trigger] self.accounts()[c] == oacc[c],
                forall|j: int|
                    i <= j < oids_g.len() ==> omap@.contains_key(#[trigger] oids_g[j])
                        && omap@[oids_g[j]]@ == oacc[oids_g[j]],
            decreases oids_g.len() - i,
        {
            let id = oids[i];
            proof {
                assert(oids_g.contains(oids_g[i as int]));
                assert(oacc.contains_key(id));
            }
            let ghost pre = self.accounts();
            let ghost pre_ids = self.ids_seq();
            match omap.remove(&id) {
                Some(acc) => {
                    proof {
                        assert(acc@ == oacc[id]);
                    }
                    self.map.insert(id, acc);
                    self.ids.push(id);
                    proof {
                        assert(self.accounts() =~= pre.insert(id, acc@));
                        assert(self.accounts().dom() =~= pre.dom().insert(id));
                        assert(oids_g.take(i + 1) =~= oids_g.take(i as int).push(id));
                        assert(self.ids_seq() =~= ids0 + oids_g.take(i + 1));
                        // the absorbed client is fresh in the merged map
                        assert(!m0.contains_key(id));
                        assert(!ids0.contains(id));
                        assert(forall|j: int|
                            0 <= j < i ==> #[trigger] oids_g.take(i as int)[j] != id);
                        assert(!oids_g.take(i as int).contains(id));
                        assert(!pre_ids.contains(id));
                        assert(account_inv(oacc[id]));
                        assert(self.ids_seq().no_duplicates());
                    }
                },
                None => {
                    proof {
                        assert(false);
                    }
                },
            }
            i = i + 1;
        }
        proof {
            assert(oids_g.take(oids_g.len() as int) =~= oids_g);
        }
    }

    /// The account of a client, if it exists.
    pub fn get(&self, client: u16) -> (r: Option<&AccountState>)
        requires
            self.inv(),
        ensures
            match r {
                Some(acc) => self.accounts().contains_key(client) && acc@ == self.accounts()[client],
                None => !self.accounts().contains_key(client),
            },
    {
        self.map.get(&client)
    }
}

/// Routes one transaction to the right account operation: deposits create the
/// account on demand, every other kind requires it to exist; any rejection is
/// reported as a processing error carrying the client and transaction ids.
pub fn handle_transaction(tx: &Transaction, accounts: &mut Accounts) -> (r: Result<(), Error>)
    requires
        old(accounts).inv(),
    ensures
        final(accounts).inv(),
        final(accounts).accounts() == step_map(old(accounts).accounts(), *tx),
        r is Ok <==> tx_allowed(old(accounts).accounts(), *tx),
        r is Err ==> r->Err_0 is Processing && r->Err_0->Processing_client_id == tx.spec_client()
            && r->Err_0->Processing_tx_id == tx.spec_tx() && r->Err_0->Processing_message@
            == rejection_message(old(accounts).accounts(), *tx),
        final(accounts).ids_seq() == if step_creates(old(accounts).accounts(), *tx) {
            old(accounts).ids_seq().push(tx.spec_client())
        } else {
            old(accounts).ids_seq()
        },
{
    match tx {
        Transaction::Deposit(deposit) => handle_deposit(deposit, accounts),
        Transaction::Withdrawal(withdrawal) => handle_withdrawal(withdrawal, accounts),
        Transaction::Dispute(dispute) => handle_dispute(dispute, accounts),
        Transaction::Resolve(resolve) => handle_resolve(resolve, accounts),
        Transaction::Chargeback(chargeback) => handle_chargeback(chargeback, accounts),
    }
}

fn handle_deposit(deposit: &Deposit, accounts: &mut Accounts) -> (r: Result<(), Error>)
    requires
        old(accounts).inv(),
    ensures
        final(accounts).inv(),
        final(accounts).accounts() == step_map(
            old(accounts).accounts(),
            Transaction::Deposit(*deposit),
        ),
        r is Ok <==> tx_allowed(old(accounts).accounts(), Transaction::Deposit(*deposit)),
        r is Err ==> r->Err_0 is Processing && r->Err_0->Processing_client_id
            == deposit.spec_client_id()@ && r->Err_0->Processing_tx_id == deposit.spec_tx_id()@
            && r->Err_0->Processing_message@ == rejection_message(
            old(accounts).accounts(),
            Transaction::Deposit(*deposit),
        ),
        final(accounts).ids_seq() == if step_creates(
            old(accounts).accounts(),
            Transaction::Deposit(*deposit),
        ) {
            old(accounts).ids_seq().push(deposit.spec_client_id()@)
        } else {
            old(accounts).ids_seq()
        },
{
    let ghost t = Transaction::Deposit(*deposit);
    let ghost m0 = old(accounts).accounts();
    let client: u16 = deposit.client_id().into();
    let tx_id: u32 = deposit.tx_id().into();
    match accounts.map.remove(&client) {
        Some(mut acc) => {
            proof {
                assert(old(accounts).map@.contains_key(client));
                assert(acc == old(accounts).map@[client]);
                assert(m0.contains_key(client));
                assert(m0[client] == acc@);
                assert(account_inv(acc@));
            }
            let res = acc.deposit(*deposit);
            let ghost a1 = acc@;
            accounts.map.insert(client, acc);
            proof {
                if res is Ok {
                    assert(accounts.accounts() =~= step_map(m0, t));
                } else {
                    assert(accounts.accounts() =~= m0);
                }
                assert(accounts.inv());
            }
            match res {
                Ok(()) => Ok(()),
                Err(e) => Err(processing_error(client, tx_id, e.message())),
            }
        },
        None => {
            let mut acc = AccountState::default();
            let res = acc.deposit(*deposit);
            assert(res is Ok);
            let ghost a1 = acc@;
            accounts.map.insert(client, acc);
            accounts.ids.push(client);
            proof {
                assert(accounts.accounts() =~= step_map(m0, t));
                assert(forall|c: u16|
                    old(accounts).ids@.push(client).contains(c) <==> old(accounts).ids@.contains(c)
                        || c == client);
                assert(accounts.inv());
            }
            Ok(())
        },
    }
}

fn handle_withdrawal(withdrawal: &Withdrawal, accounts: &mut Accounts) -> (r: Result<(), Error>)
    requires
        old(accounts).inv(),
    ensures
        final(accounts).inv(),
        final(accounts).accounts() == step_map(
            old(accounts).accounts(),
            Transaction::Withdrawal(*withdrawal),
        ),
        r is Ok <==> tx_allowed(old(accounts).accounts(), Transaction::Withdrawal(*withdrawal)),
        r is Err ==> r->Err_0 is Processing && r->Err_0->Processing_client_id
            == withdrawal.spec_client_id()@ && r->Err_0->Processing_tx_id == withdrawal.spec_tx_id()@
            && r->Err_0->Processing_message@ == rejection_message(
            old(accounts).accounts(),
            Transaction::Withdrawal(*withdrawal),
        ),
        final(accounts).ids_seq() == old(accounts).ids_seq(),
{
    let ghost t = Transaction::Withdrawal(*withdrawal);
    let ghost m0 = old(accounts).accounts();
    let client: u16 = withdrawal.client_id().into();
    let tx_id: u32 = withdrawal.tx_id().into();
    match accounts.map.remove(&client) {
        Some(mut acc) => {
            proof {
                assert(old(accounts).map@.contains_key(client));
                assert(acc == old(accounts).map@[client]);
                assert(m0.contains_key(client));
                assert(m0[client] == acc@);
                assert(account_inv(acc@));
            }
            let res = acc.withdraw(withdrawal.amount());
            accounts.map.insert(client, acc);
            proof {
                if res is Ok {
                    assert(accounts.accounts() =~= step_map(m0, t));
                } else {
                    assert(accounts.accounts() =~= m0);
                }
                assert(accounts.inv());
            }
            match res {
                Ok(()) => Ok(()),
                Err(e) => Err(processing_error(client, tx_id, e.message())),
            }
        },
        None => {
            proof {
                assert(accounts.accounts() =~= m0);
            }
            Err(
                processing_error(
                    client,
                    tx_id,
                    "withdrawal from a client without account".to_owned(),
                ),
            )
        },
    }
}

fn handle_dispute(dispute: &Dispute, accounts: &mut Accounts) -> (r: Result<(), Error>)
    requires
        old(accounts).inv(),
    ensures
        final(accounts).inv(),
        final(accounts).accounts() == step_map(
            old(accounts).accounts(),
            Transaction::Dispute(*dispute),
        ),
        r is Ok <==> tx_allowed(old(accounts).accounts(), Transaction::Dispute(*dispute)),
        r is Err ==> r->Err_0 is Processing && r->Err_0->Processing_client_id
            == dispute.spec_client_id()@ && r->Err_0->Processing_tx_id == dispute.spec_disputed_tx_id()@
            && r->Err_0->Processing_message@ == rejection_message(
            old(accounts).accounts(),
            Transaction::Dispute(*dispute),
        ),
        final(accounts).ids_seq() == old(accounts).ids_seq(),
{
    let ghost t = Transaction::Dispute(*dispute);
    let ghost m0 = old(accounts).accounts();
    let client: u16 = dispute.client_id().into();
    let tx_id: u32 = dispute.disputed_tx_id().into();
    match accounts.map.remove(&client) {
        Some(mut acc) => {
            proof {
                assert(old(accounts).map@.contains_key(client));
                assert(acc == old(accounts).map@[client]);
                assert(m0.contains_key(client));
                assert(m0[client] == acc@);
                assert(account_inv(acc@));
            }
            let res = acc.dispute(dispute.disputed_tx_id());
            accounts.map.insert(client, acc);
            proof {
                if res is Ok {
                    assert(accounts.accounts() =~= step_map(m0, t));
                } else {
                    assert(accounts.accounts() =~= m0);
                }
                assert(accounts.inv());
            }
            match res {
                Ok(()) => Ok(()),
                Err(e) => Err(processing_error(client, tx_id, e.message())),
            }
        },
        None => {
            proof {
                assert(accounts.accounts() =~= m0);
            }
            Err(processing_error(client, tx_id, "dispute from a client without account".to_owned()))
        },
    }
}

fn handle_resolve(resolve: &Resolve, accounts: &mut Accounts) -> (r: Result<(), Error>)
    requires
        old(accounts).inv(),
    ensures
        final(accounts).inv(),
        final(accounts).accounts() == step_map(
            old(accounts).accounts(),
            Transaction::Resolve(*resolve),
        ),
        r is Ok <==> tx_allowed(old(accounts).accounts(), Transaction::Resolve(*resolve)),
        r is Err ==> r->Err_0 is Processing && r->Err_0->Processing_client_id
            == resolve.spec_client_id()@ && r->Err_0->Processing_tx_id == resolve.spec_resolved_tx_id()@
            && r->Err_0->Processing_message@ == rejection_message(
            old(accounts).accounts(),
            Transaction::Resolve(*resolve),
        ),
        final(accounts).ids_seq() == old(accounts).ids_seq(),
{
    let ghost t = Transaction::Resolve(*resolve);
    let ghost m0 = old(accounts).accounts();
    let client: u16 = resolve.client_id().into();
    let tx_id: u32 = resolve.resolved_tx_id().into();
    match accounts.map.remove(&client) {
        Some(mut acc) => {
            proof {
                assert(old(accounts).map@.contains_key(client));
                assert(acc == old(accounts).map@[client]);
                assert(m0.contains_key(client));
                assert(m0[client] == acc@);
                assert(account_inv(acc@));
            }
            let res = acc.resolve(resolve.resolved_tx_id());
            accounts.map.insert(client, acc);
            proof {
                if res is Ok {
                    assert(accounts.accounts() =~= step_map(m0, t));
                } else {
                    assert(accounts.accounts() =~= m0);
                }
                assert(accounts.inv());
            }
            match res {
                Ok(()) => Ok(()),
                Err(e) => Err(processing_error(client, tx_id, e.message())),
            }
        },
        None => {
            proof {
                assert(accounts.accounts() =~= m0);
            }
            Err(processing_error(client, tx_id, "resolve from a client without account".to_owned()))
        },
    }
}

fn handle_chargeback(chargeback: &Chargeback, accounts: &mut Accounts) -> (r: Result<(), Error>)
    requires
        old(accounts).inv(),
    ensures
        final(accounts).inv(),
        final(accounts).accounts() == step_map(
            old(accounts).accounts(),
            Transaction::Chargeback(*chargeback),
        ),
        r is Ok <==> tx_allowed(old(accounts).accounts(), Transaction::Chargeback(*chargeback)),
        r is Err ==> r->Err_0 is Processing && r->Err_0->Processing_client_id
            == chargeback.spec_client_id()@ && r->Err_0->Processing_tx_id == chargeback.spec_reverted_tx_id()@
            && r->Err_0->Processing_message@ == rejection_message(
            old(accounts).accounts(),
            Transaction::Chargeback(*chargeback),
        ),
        final(accounts).ids_seq() == old(accounts).ids_seq(),
{
    let ghost t = Transaction::Chargeback(*chargeback);
    let ghost m0 = old(accounts).accounts();
    let client: u16 = chargeback.client_id().into();
    let tx_id: u32 = chargeback.reverted_tx_id().into();
    match accounts.map.remove(&client) {
        Some(mut acc) => {
            proof {
                assert(old(accounts).map@.contains_key(client));
                assert(acc == old(accounts).map@[client]);
                assert(m0.contains_key(client));
                assert(m0[client] == acc@);
                assert(account_inv(acc@));
            }
            let res = acc.chargeback(chargeback.reverted_tx_id());
            accounts.map.insert(client, acc);
            proof {
                if res is Ok {
                    assert(accounts.accounts() =~= step_map(m0, t));
                } else {
                    assert(accounts.accounts() =~= m0);
                }
                assert(accounts.inv());
            }
            match res {
                Ok(()) => Ok(()),
                Err(e) => Err(processing_error(client, tx_id, e.message())),
            }
        },
        None => {
            proof {
                assert(accounts.accounts() =~= m0);
            }
            Err(
                processing_error(
                    client,
                    tx_id,
                    "chargeback from a client without account".to_owned(),
                ),
            )
        },
    }
}

/// The transactions of a stream of parse results, in order.
pub open spec fn oks(items: Seq<Result<Transaction, Error>>) -> Seq<Transaction>
    decreases items.len(),
{
    if items.len() == 0 {
        Seq::empty()
    } else {
        (if items[0] is Ok {
            seq![items[0]->Ok_0]
        } else {
            Seq::empty()
        }) + oks(items.skip(1))
    }
}

/// Appending one parse result appends its transaction, if it carries one.
pub proof fn lemma_oks_snoc(items: Seq<Result<Transaction, Error>>, it: Result<Transaction, Error>)
    ensures
        oks(items.push(it)) == oks(items) + (if it is Ok {
            seq![it->Ok_0]
        } else {
            Seq::<Transaction>::empty()
        }),
    decreases items.len(),
{
    let e = items.push(it);
    let x: Seq<Transaction> = if it is Ok {
        seq![it->Ok_0]
    } else {
        Seq::empty()
    };
    assert(e[0] == if items.len() == 0 { it } else { items[0] });
    if items.len() == 0 {
        assert(e.skip(1) =~= Seq::<Result<Transaction, Error>>::empty());
        assert(oks(e) =~= oks(items) + x);
    } else {
        assert(e.skip(1) =~= items.skip(1).push(it));
        lemma_oks_snoc(items.skip(1), it);
        assert(oks(e) =~= oks(items) + x);
    }
}

/// The parse errors of a stream of parse results, in order.
pub open spec fn parse_errors(items: Seq<Result<Transaction, Error>>) -> Seq<Error>
    decreases items.len(),
{
    if items.len() == 0 {
        Seq::empty()
    } else {
        (if items[0] is Err {
            seq![items[0]->Err_0]
        } else {
            Seq::empty()
        }) + parse_errors(items.skip(1))
    }
}

/// Appending one parse result appends its error, if it carries one.
pub proof fn lemma_parse_errors_snoc(
    items: Seq<Result<Transaction, Error>>,
    it: Result<Transaction, Error>,
)
    ensures
        parse_errors(items.push(it)) == parse_errors(items) + (if it is Err {
            seq![it->Err_0]
        } else {
            Seq::<Error>::empty()
        }),
    decreases items.len(),
{
    let e = items.push(it);
    let x: Seq<Error> = if it is Err {
        seq![it->Err_0]
    } else {
        Seq::empty()
    };
    assert(e[0] == if items.len() == 0 { it } else { items[0] });
    if items.len() == 0 {
        assert(e.skip(1) =~= Seq::<Result<Transaction, Error>>::empty());
        assert(parse_errors(e.skip(1)) =~= Seq::<Error>::empty());
        assert(parse_errors(items) =~= Seq::<Error>::empty());
        assert(parse_errors(e) =~= parse_errors(items) + x);
    } else {
        assert(e.skip(1) =~= items.skip(1).push(it));
        lemma_parse_errors_snoc(items.skip(1), it);
        assert(parse_errors(e) =~= parse_errors(items) + x);
    }
}

/// The records of the accepted transactions of a stream, in order.
pub open spec fn success_records(m: Map<u16, AccountV>, txs: Seq<Transaction>) -> Seq<
    TransactionRecord,
>
    decreases txs.len(),
{
    if txs.len() == 0 {
        Seq::empty()
    } else {
        (if tx_allowed(m, txs[0]) {
            seq![record_of(txs[0])]
        } else {
            Seq::empty()
        }) + success_records(step_map(m, txs[0]), txs.skip(1))
    }
}

/// Whether an appended transaction adds a record is decided by the fold of
/// the stream before it.
pub proof fn lemma_success_records_snoc(
    m: Map<u16, AccountV>,
    txs: Seq<Transaction>,
    t: Transaction,
)
    ensures
        success_records(m, txs.push(t)) == success_records(m, txs) + (if tx_allowed(
            run_from(m, txs),
            t,
        ) {
            seq![record_of(t)]
        } else {
            Seq::<TransactionRecord>::empty()
        }),
    decreases txs.len(),
{
    let e = txs.push(t);
    let x: Seq<TransactionRecord> = if tx_allowed(run_from(m, txs), t) {
        seq![record_of(t)]
    } else {
        Seq::empty()
    };
    assert(e[0] == if txs.len() == 0 { t } else { txs[0] });
    if txs.len() == 0 {
        assert(e.skip(1) =~= Seq::<Transaction>::empty());
        assert(success_records(m, txs) =~= Seq::<TransactionRecord>::empty());
        assert(run_from(m, txs) == m);
        assert(success_records(step_map(m, t), e.skip(1)) =~= Seq::<TransactionRecord>::empty());
        assert(success_records(m, e) =~= success_records(m, txs) + x);
    } else {
        let m1 = step_map(m, txs[0]);
        let head: Seq<TransactionRecord> = if tx_allowed(m, txs[0]) {
            seq![record_of(txs[0])]
        } else {
            Seq::empty()
        };
        assert(e.skip(1) =~= txs.skip(1).push(t));
        lemma_success_records_snoc(m1, txs.skip(1), t);
        assert(run_from(m, txs) == run_from(m1, txs.skip(1)));
        assert(success_records(m, e) == head + success_records(m1, e.skip(1)));
        assert(success_records(m1, e.skip(1)) == success_records(m1, txs.skip(1)) + x);
        assert(success_records(m, txs) == head + success_records(m1, txs.skip(1)));
        assert(head + (success_records(m1, txs.skip(1)) + x) =~= (head + success_records(
            m1,
            txs.skip(1),
        )) + x);
    }
}

/// One expected entry of the error report: either a parse error forwarded
/// unchanged, or a transaction rejected by the account it addressed.
pub ghost enum ErrEvent {
    Forwarded { error: Error },
    Rejected { client: u16, tx: u32, message: Seq<char> },
}

/// The expected error report of a stream of parse results, in order.
pub open spec fn err_events(m: Map<u16, AccountV>, items: Seq<Result<Transaction, Error>>) -> Seq<
    ErrEvent,
>
    decreases items.len(),
{
    if items.len() == 0 {
        Seq::empty()
    } else {
        let head: Seq<ErrEvent> = match items[0] {
            Result::Err(e) => seq![ErrEvent::Forwarded { error: e }],
            Result::Ok(t) => if tx_allowed(m, t) {
                Seq::empty()
            } else {
                seq![
                    ErrEvent::Rejected {
                        client: t.spec_client(),
                        tx: t.spec_tx(),
                        message: rejection_message(m, t),
                    },
                ]
            },
        };
        let m1 = match items[0] {
            Result::Ok(t) => step_map(m, t),
            Result::Err(_) => m,
        };
        head + err_events(m1, items.skip(1))
    }
}

/// The expected error entry of an appended parse result, if any, is decided
/// by the fold of the transactions before it.
pub proof fn lemma_err_events_snoc(
    m: Map<u16, AccountV>,
    items: Seq<Result<Transaction, Error>>,
    it: Result<Transaction, Error>,
)
    ensures
        err_events(m, items.push(it)) == err_events(m, items) + (match it {
            Result::Err(e) => seq![ErrEvent::Forwarded { error: e }],
            Result::Ok(t) => if tx_allowed(run_from(m, oks(items)), t) {
                Seq::<ErrEvent>::empty()
            } else {
                seq![
                    ErrEvent::Rejected {
                        client: t.spec_client(),
                        tx: t.spec_tx(),
                        message: rejection_message(run_from(m, oks(items)), t),
                    },
                ]
            },
        }),
    decreases items.len(),
{
    let e = items.push(it);
    let x: Seq<ErrEvent> = match it {
        Result::Err(err) => seq![ErrEvent::Forwarded { error: err }],
        Result::Ok(t) => if tx_allowed(run_from(m, oks(items)), t) {
            Seq::empty()
        } else {
            seq![
                ErrEvent::Rejected {
                    client: t.spec_client(),
                    tx: t.spec_tx(),
                    message: rejection_message(run_from(m, oks(items)), t),
                },
            ]
        },
    };
    assert(e[0] == if items.len() == 0 { it } else { items[0] });
    if items.len() == 0 {
        assert(e.skip(1) =~= Seq::<Result<Transaction, Error>>::empty());
        assert(err_events(m, items) =~= Seq::<ErrEvent>::empty());
        assert(oks(items) =~= Seq::<Transaction>::empty());
        assert(run_from(m, oks(items)) == m);
        let m1 = match it {
            Result::Ok(t) => step_map(m, t),
            Result::Err(_) => m,
        };
        assert(err_events(m1, e.skip(1)) =~= Seq::<ErrEvent>::empty());
        assert(err_events(m, e) =~= err_events(m, items) + x);
    } else {
        assert(e.skip(1) =~= items.skip(1).push(it));
        let m1 = match items[0] {
            Result::Ok(t) => step_map(m, t),
            Result::Err(_) => m,
        };
        let head: Seq<ErrEvent> = match items[0] {
            Result::Err(err0) => seq![ErrEvent::Forwarded { error: err0 }],
            Result::Ok(t0) => if tx_allowed(m, t0) {
                Seq::empty()
            } else {
                seq![
                    ErrEvent::Rejected {
                        client: t0.spec_client(),
                        tx: t0.spec_tx(),
                        message: rejection_message(m, t0),
                    },
                ]
            },
        };
        lemma_err_events_snoc(m1, items.skip(1), it);
        match items[0] {
            Result::Ok(t0) => {
                assert(oks(items) == seq![t0] + oks(items.skip(1)));
                assert((seq![t0] + oks(items.skip(1)))[0] == t0);
                assert((seq![t0] + oks(items.skip(1))).skip(1) =~= oks(items.skip(1)));
                assert(run_from(m, oks(items)) == run_from(m1, oks(items.skip(1))));
            },
            Result::Err(_) => {
                assert(oks(items) =~= oks(items.skip(1)));
            },
        }
        assert(err_events(m, e) == head + err_events(m1, e.skip(1)));
        assert(err_events(m1, e.skip(1)) == err_events(m1, items.skip(1)) + x);
        assert(err_events(m, items) == head + err_events(m1, items.skip(1)));
        assert(head + (err_events(m1, items.skip(1)) + x) =~= (head + err_events(
            m1,
            items.skip(1),
        )) + x);
    }
}

/// Whether a reported error is the one an expected error entry calls for: a
/// forwarded parse error is that exact error, and a rejection is a processing
/// error carrying the rejected transaction's client and transaction ids.
pub open spec fn error_matches(e: Error, ev: ErrEvent) -> bool {
    match ev {
        ErrEvent::Forwarded { error } => e == error,
        ErrEvent::Rejected { client, tx, message } => e is Processing
            && e->Processing_client_id == client && e->Processing_tx_id == tx
            && e->Processing_message@ == message,
    }
}

/// The result of one engine run: the final accounts, the records of the
/// accepted transactions in processing order, and the reported errors, also
/// in processing order.
pub struct EngineRun {
    pub accounts: Accounts,
    pub successes: Vec<TransactionRecord>,
    pub errors: Vec<Error>,
}

/// Whether an engine run reports exactly what the stream of parse results
/// calls for: the final accounts are the fold of the stream's transactions,
/// the accepted transactions are echoed in order, and the error report lists
/// the forwarded parse errors and the rejections in order.
pub open spec fn run_reports(items: Seq<Result<Transaction, Error>>, run: EngineRun) -> bool {
    &&& run.accounts.inv()
    &&& run.accounts.accounts() == run_from(Map::empty(), oks(items))
    &&& run.successes@ == success_records(Map::empty(), oks(items))
    &&& run.errors@.len() == err_events(Map::empty(), items).len()
    &&& forall|i: int|
        0 <= i < run.errors@.len() ==> error_matches(
            #[trigger] run.errors@[i],
            err_events(Map::empty(), items)[i],
        )
}

/// Processes a stream of parse results and outputs the final state of the
/// client accounts, once the stream is exhausted. Parse errors are forwarded
/// to the error report; transactions are dispatched in arrival order, echoed
/// on success and reported on rejection. Uses a single thread of control.
pub fn process_transactions(transactions: Vec<Result<Transaction, Error>>) -> (run: EngineRun)
    ensures
        run_reports(transactions@, run),
{
    let ghost items = transactions@;
    let mut src = transactions;
    let mut rev: Vec<Result<Transaction, Error>> = Vec::new();
    while src.len() > 0
        invariant
            rev@.len() + src@.len() == items.len(),
            src@ == items.take(src@.len() as int),
            forall|j: int| 0 <= j < rev@.len() ==> rev@[j] == items[items.len() - 1 - j],
        decreases src@.len(),
    {
        match src.pop() {
            Some(item) => {
                rev.push(item);
                proof {
                    assert(src@ =~= items.take(src@.len() as int));
                }
            },
            None => {
                proof {
                    assert(false);
                }
            },
        }
    }

    let mut accounts = Accounts::new();
    let mut successes: Vec<TransactionRecord> = Vec::new();
    let mut errors: Vec<Error> = Vec::new();
    while rev.len() > 0
        invariant
            accounts.inv(),
            rev@.len() <= items.len(),
            forall|j: int| 0 <= j < rev@.len() ==> rev@[j] == items[items.len() - 1 - j],
            accounts.accounts() == run_from(
                Map::empty(),
                oks(items.take(items.len() - rev@.len())),
            ),
            successes@ == success_records(
                Map::empty(),
                oks(items.take(items.len() - rev@.len())),
            ),
            errors@.len() == err_events(Map::empty(), items.take(items.len() - rev@.len())).len(),
            forall|i: int|
                0 <= i < errors@.len() ==> error_matches(
                    #[trigger] errors@[i],
                    err_events(Map::empty(), items.take(items.len() - rev@.len()))[i],
                ),
        decreases rev@.len(),
    {
        let ghost processed = items.take(items.len() - rev@.len());
        match rev.pop() {
            Some(item) => {
                let ghost gi = item;
                proof {
                    assert(gi == items[processed.len() as int]);
                    assert(processed.push(gi) =~= items.take(items.len() - rev@.len()));
                    lemma_oks_snoc(processed, gi);
                    lemma_err_events_snoc(Map::empty(), processed, gi);
                }
                match item {
                    Ok(tx) => {
                        proof {
                            lemma_run_from_snoc(Map::empty(), oks(processed), tx);
                            lemma_success_records_snoc(Map::empty(), oks(processed), tx);
                            assert(oks(processed).push(tx) =~= oks(processed) + seq![tx]);
                        }
                        let res = handle_transaction(&tx, &mut accounts);
                        match res {
                            Ok(()) => {
                                successes.push(TransactionRecord::from_domain(&tx));
                                proof {
                                    assert(err_events(Map::empty(), processed.push(gi))
                                        =~= err_events(Map::empty(), processed));
                                }
                            },
                            Err(e) => {
                                errors.push(e);
                            },
                        }
                    },
                    Err(e) => {
                        proof {
                            assert(oks(processed.push(gi)) =~= oks(processed));
                        }
                        errors.push(e);
                    },
                }
            },
            None => {
                proof {
                    assert(false);
                }
            },
        }
    }
    proof {
        assert(items.take(items.len() as int) =~= items);
    }
    EngineRun { accounts, successes, errors }
}

} // verus!
