//! The engine's outward-facing records: the final state of one account, and
//! the echo of one successfully applied transaction.

use vstd::prelude::*;
use crate::account::{AccountState, AccountV, account_inv};
use crate::domain::Transaction;
use crate::engine::Accounts;
use crate::money::Money;

verus! {

/// The final state of one client account.
#[derive(Debug, Clone, Copy, PartialEq, Eq, Structural)]
pub struct AccountRecord {
    pub client: u16,
    pub available: Money,
    pub held: Money,
    pub total: Money,
    pub locked: bool,
}

/// Whether `r` reports exactly the state of account `a` of client `client`:
/// the balances are echoed and the total is their sum.
pub open spec fn record_matches(client: u16, a: AccountV, r: AccountRecord) -> bool {
    &&& r.client == client
    &&& r.available.units == a.available
    &&& r.held.units == a.held
    &&& r.total.units == a.available + a.held
    &&& r.locked == a.locked
}

impl AccountRecord {
    /// The record of one account.
    pub fn new(client: u16, state: &AccountState) -> (r: AccountRecord)
        requires
            account_inv(state@),
        ensures
            record_matches(client, state@, r),
    {
        let available = state.available_funds();
        let held = state.held_funds();
        let total = available.add_money(held);
        AccountRecord { client, available, held, total, locked: state.is_locked() }
    }
}

/// The echo of a successfully processed transaction, handed to the caller in
/// processing order.
#[derive(Debug, Clone, Copy, PartialEq, Eq, Structural)]
pub enum TransactionRecord {
    Deposit { client: u16, tx: u32, amount: Money },
    Withdrawal { client: u16, tx: u32, amount: Money },
    Dispute { client: u16, tx: u32 },
    Resolve { client: u16, tx: u32 },
    Chargeback { client: u16, tx: u32 },
}

/// The record that echoes a given transaction.
pub open spec fn record_of(t: Transaction) -> TransactionRecord {
    match t {
        Transaction::Deposit(d) => TransactionRecord::Deposit {
            client: d.spec_client_id()@,
            tx: d.spec_tx_id()@,
            amount: d.spec_amount(),
        },
        Transaction::Withdrawal(w) => TransactionRecord::Withdrawal {
            client: w.spec_client_id()@,
            tx: w.spec_tx_id()@,
            amount: w.spec_amount(),
        },
        Transaction::Dispute(d) => TransactionRecord::Dispute {
            client: d.spec_client_id()@,
            tx: d.spec_disputed_tx_id()@,
        },
        Transaction::Resolve(r) => TransactionRecord::Resolve {
            client: r.spec_client_id()@,
            tx: r.spec_resolved_tx_id()@,
        },
        Transaction::Chargeback(c) => TransactionRecord::Chargeback {
            client: c.spec_client_id()@,
            tx: c.spec_reverted_tx_id()@,
        },
    }
}

impl TransactionRecord {
    /// The record echoing the given transaction.
    pub fn from_domain(tx: &Transaction) -> (r: Self)
        ensures
            r == record_of(*tx),
    {
        match tx {
            Transaction::Deposit(d) => TransactionRecord::Deposit {
                client: d.client_id().into(),
                tx: d.tx_id().into(),
                amount: d.amount(),
            },
            Transaction::Withdrawal(w) => TransactionRecord::Withdrawal {
                client: w.client_id().into(),
                tx: w.tx_id().into(),
                amount: w.amount(),
            },
            Transaction::Dispute(d) => TransactionRecord::Dispute {
                client: d.client_id().into(),
                tx: d.disputed_tx_id().into(),
            },
            Transaction::Resolve(r) => TransactionRecord::Resolve {
                client: r.client_id().into(),
                tx: r.resolved_tx_id().into(),
            },
            Transaction::Chargeback(c) => TransactionRecord::Chargeback {
                client: c.client_id().into(),
                tx: c.reverted_tx_id().into(),
            },
        }
    }
}

/// Converts a final account map into one record per account, in account
/// creation order (callers must not rely on any particular order).
pub fn to_account_records(accounts: &Accounts) -> (out: Vec<AccountRecord>)
    requires
        accounts.inv(),
    ensures
        out@.len() == accounts.ids_seq().len(),
        forall|i: int|
            0 <= i < out@.len() ==> record_matches(
                accounts.ids_seq()[i],
                accounts.accounts()[accounts.ids_seq()[i]],
                #[trigger] out@[i],
            ),
{
    let mut out: Vec<AccountRecord> = Vec::new();
    let n = accounts.len();
    let mut i: usize = 0;
    while i < n
        invariant
            accounts.inv(),
            n == accounts.ids_seq().len(),
            i <= n,
            out@.len() == i,
            forall|j: int|
                0 <= j < i ==> record_matches(
                    accounts.ids_seq()[j],
                    accounts.accounts()[accounts.ids_seq()[j]],
                    #[trigger] out@[j],
                ),
        decreases n - i,
    {
        let id = accounts.id_at(i);
        proof {
            assert(accounts.ids_seq().contains(accounts.ids_seq()[i as int]));
        }
        match accounts.get(id) {
            Some(state) => {
                proof {
                    assert(account_inv(accounts.accounts()[id]));
                }
                let record = AccountRecord::new(id, state);
                out.push(record);
            },
            None => {
                proof {
                    assert(false);
                }
            },
        }
        i = i + 1;
    }
    out
}

} // verus!
