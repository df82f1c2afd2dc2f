//! The per-client ledger state machine: available and held funds, the
//! dispute bookkeeping, and the terminal lock entered by a chargeback.
//!
//! The mathematical model is [`AccountV`]: every operation is specified as a
//! guard (`..._allowed`) plus a transformer (`..._applied`) on that model, and
//! the executable methods are proved to follow them exactly.

use vstd::prelude::*;
use std::collections::HashMap;
use crate::money::Money;
use crate::domain::TxId;
use crate::sums::{map_sum, lemma_map_sum_insert, lemma_map_sum_remove, lemma_map_sum_entry_bound,
    lemma_map_sum_empty};

verus! {

broadcast use vstd::std_specs::hash::group_hash_axioms;

/// The model of one client account: balances in minor units, the lock flag,
/// and the deposits that are eligible for dispute (`accepted`) or currently
/// under dispute (`disputed`), keyed by transaction id.
pub ghost struct AccountV {
    pub available: int,
    pub held: int,
    pub locked: bool,
    pub accepted: Map<u32, int>,
    pub disputed: Map<u32, int>,
}

/// The model of a freshly created (zero-initialized) account.
pub open spec fn new_account() -> AccountV {
    AccountV {
        available: 0,
        held: 0,
        locked: false,
        accepted: Map::empty(),
        disputed: Map::empty(),
    }
}

/// What holds of every reachable account: balances are non-negative, the
/// total balance fits the machine representation, recorded deposit amounts
/// are representable, and the held funds cover every disputed deposit.
///
/// The held funds *cover* the disputed sum rather than equal it, and the
/// accepted and disputed maps are not required to be disjoint: transaction
/// ids are unique per stream only by the parser's contract, and when a
/// deposit reuses the id of a deposit still under dispute, the accounts
/// keep both records (as a redeposited id's earlier disputed amount stays
/// held until resolved or charged back).
pub open spec fn account_inv(a: AccountV) -> bool {
    &&& 0 <= a.available
    &&& 0 <= a.held
    &&& a.available + a.held <= u64::MAX
    &&& a.accepted.dom().finite()
    &&& a.disputed.dom().finite()
    &&& (forall|k: u32| a.accepted.contains_key(k) ==> 0 <= #[trigger] a.accepted[k] <= u64::MAX)
    &&& (forall|k: u32| a.disputed.contains_key(k) ==> 0 <= #[trigger] a.disputed[k] <= u64::MAX)
    &&& map_sum(a.disputed) <= a.held
}

/// A deposit is accepted unless the account is locked or the new total
/// balance would not be representable.
pub open spec fn deposit_allowed(a: AccountV, amount: int) -> bool {
    &&& !a.locked
    &&& a.available + a.held + amount <= u64::MAX
}

/// A deposit credits the available funds and records the transaction as
/// eligible for dispute.
pub open spec fn deposit_applied(a: AccountV, tx: u32, amount: int) -> AccountV {
    AccountV {
        available: a.available + amount,
        accepted: a.accepted.insert(tx, amount),
        ..a
    }
}

/// A withdrawal is accepted when the account is not locked and the available
/// funds cover the amount.
pub open spec fn withdraw_allowed(a: AccountV, amount: int) -> bool {
    &&& !a.locked
    &&& amount <= a.available
}

/// A withdrawal debits the available funds.
pub open spec fn withdraw_applied(a: AccountV, amount: int) -> AccountV {
    AccountV { available: a.available - amount, ..a }
}

/// A dispute is accepted when the account is not locked, the referenced
/// transaction is an accepted deposit, and the available funds still cover
/// its recorded amount.
pub open spec fn dispute_allowed(a: AccountV, tx: u32) -> bool {
    &&& !a.locked
    &&& a.accepted.contains_key(tx)
    &&& a.accepted[tx] <= a.available
}

/// A dispute moves the deposit's amount from available to held and the
/// record from accepted to disputed.
pub open spec fn dispute_applied(a: AccountV, tx: u32) -> AccountV {
    let amt = a.accepted[tx];
    AccountV {
        available: a.available - amt,
        held: a.held + amt,
        accepted: a.accepted.remove(tx),
        disputed: a.disputed.insert(tx, amt),
        ..a
    }
}

/// A resolve is accepted when the account is not locked and the referenced
/// transaction is currently under dispute.
pub open spec fn resolve_allowed(a: AccountV, tx: u32) -> bool {
    &&& !a.locked
    &&& a.disputed.contains_key(tx)
}

/// A resolve moves the disputed amount back from held to available and makes
/// the deposit eligible for dispute again.
pub open spec fn resolve_applied(a: AccountV, tx: u32) -> AccountV {
    let amt = a.disputed[tx];
    AccountV {
        available: a.available + amt,
        held: a.held - amt,
        accepted: a.accepted.insert(tx, amt),
        disputed: a.disputed.remove(tx),
        ..a
    }
}

/// A chargeback is accepted when the account is not locked and the referenced
/// transaction is currently under dispute.
pub open spec fn chargeback_allowed(a: AccountV, tx: u32) -> bool {
    resolve_allowed(a, tx)
}

/// A chargeback removes the disputed amount from the held funds for good and
/// locks the account.
pub open spec fn chargeback_applied(a: AccountV, tx: u32) -> AccountV {
    let amt = a.disputed[tx];
    AccountV {
        held: a.held - amt,
        disputed: a.disputed.remove(tx),
        locked: true,
        ..a
    }
}

/// The integer values recorded in a map of money amounts.
pub open spec fn units_map(m: Map<u32, Money>) -> Map<u32, int> {
    Map::new(|k: u32| m.contains_key(k), |k: u32| m[k].units as int)
}

/// The account state of a client.
#[derive(Debug)]
pub struct AccountState {
    accepted_deposits: HashMap<u32, Money>,
    disputed_deposits: HashMap<u32, Money>,
    available: Money,
    held: Money,
    locked: bool,
}

impl View for AccountState {
    type V = AccountV;

    closed spec fn view(&self) -> AccountV {
        AccountV {
            available: self.available.units as int,
            held: self.held.units as int,
            locked: self.locked,
            accepted: units_map(self.accepted_deposits@),
            disputed: units_map(self.disputed_deposits@),
        }
    }
}

/// Why an account rejected an operation.
#[derive(Debug, Clone, Copy, PartialEq, Eq, Structural)]
pub enum AccountError {
    /// The account is locked by an earlier chargeback.
    Locked,
    /// A withdrawal exceeding the available funds.
    InsufficientFunds,
    /// A dispute referencing a transaction that is not an accepted deposit.
    UnknownTransaction,
    /// A dispute whose deposit's funds were already withdrawn.
    FundsAlreadyWithdrawn,
    /// A resolve or chargeback referencing a transaction not under dispute.
    UnknownOrUndisputed,
    /// A deposit that would push the total balance past the representable
    /// maximum.
    BalanceOverflow,
}

impl AccountError {
    /// The exact description each rejection carries.
    pub open spec fn spec_message(&self) -> Seq<char> {
        match self {
            AccountError::Locked => "account locked: transaction rejected"@,
            AccountError::InsufficientFunds => "insufficient funds to withdraw"@,
            AccountError::UnknownTransaction => "dispute referencing unknown transaction"@,
            AccountError::FundsAlreadyWithdrawn => {
                "the funds of the disputed deposit were already withdrawn"@
            },
            AccountError::UnknownOrUndisputed => {
                "resolve or chargeback referencing unknown/undisputed transaction"@
            },
            AccountError::BalanceOverflow => {
                "the deposited amount would overflow the account balance"@
            },
        }
    }

    /// A human-readable description of the rejection.
    pub fn message(&self) -> (r: String)
        ensures
            r@ == self.spec_message(),
    {
        match self {
            AccountError::Locked => "account locked: transaction rejected".to_owned(),
            AccountError::InsufficientFunds => "insufficient funds to withdraw".to_owned(),
            AccountError::UnknownTransaction => {
                "dispute referencing unknown transaction".to_owned()
            },
            AccountError::FundsAlreadyWithdrawn => {
                "the funds of the disputed deposit were already withdrawn".to_owned()
            },
            AccountError::UnknownOrUndisputed => {
                "resolve or chargeback referencing unknown/undisputed transaction".to_owned()
            },
            AccountError::BalanceOverflow => {
                "the deposited amount would overflow the account balance".to_owned()
            },
        }
    }
}

impl Default for AccountState {
    /// A freshly created, zero-initialized account.
    fn default() -> (r: Self)
        ensures
            r@ == new_account(),
            account_inv(r@),
    {
        let r = AccountState {
            accepted_deposits: HashMap::new(),
            disputed_deposits: HashMap::new(),
            available: Money::zero(),
            held: Money::zero(),
            locked: false,
        };
        proof {
            lemma_map_sum_empty();
            assert(r@.accepted =~= Map::<u32, int>::empty());
            assert(r@.disputed =~= Map::<u32, int>::empty());
        }
        r
    }
}

impl AccountState {
    /// An account with the given balances and lock flag and no recorded
    /// deposits.
    pub fn new(available: Money, held: Money, locked: bool) -> (r: Self)
        requires
            available.units + held.units <= u64::MAX,
        ensures
            r@.available == available.units,
            r@.held == held.units,
            r@.locked == locked,
            r@.accepted == Map::<u32, int>::empty(),
            r@.disputed == Map::<u32, int>::empty(),
            account_inv(r@),
    {
        let r = AccountState {
            accepted_deposits: HashMap::new(),
            disputed_deposits: HashMap::new(),
            available,
            held,
            locked,
        };
        proof {
            lemma_map_sum_empty();
            assert(r@.accepted =~= Map::<u32, int>::empty());
            assert(r@.disputed =~= Map::<u32, int>::empty());
        }
        r
    }

    /// Credits the deposited amount to the available funds and records the
    /// deposit as eligible for dispute.
    pub fn deposit(&mut self, deposit: crate::domain::Deposit) -> (r: Result<(), AccountError>)
        requires
            account_inv(old(self)@),
        ensures
            account_inv(final(self)@),
            r is Ok <==> deposit_allowed(old(self)@, deposit.spec_amount().units as int),
            r is Ok ==> final(self)@ == deposit_applied(
                old(self)@,
                deposit.spec_tx_id()@,
                deposit.spec_amount().units as int,
            ),
            r is Err ==> final(self)@ == old(self)@,
            r == Err::<(), AccountError>(AccountError::Locked) <==> old(self)@.locked,
            r == Err::<(), AccountError>(AccountError::BalanceOverflow) <==> !old(self)@.locked
                && old(self)@.available + old(self)@.held + deposit.spec_amount().units
                > u64::MAX,
    {
        if self.locked {
            return Err(AccountError::Locked);
        }
        let amount = deposit.amount();
        let total = self.available.add_money(self.held);
        if amount.as_units() > u64::MAX - total.as_units() {
            return Err(AccountError::BalanceOverflow);
        }
        let tx: u32 = deposit.tx_id().into();
        self.available = self.available.add_money(amount);
        self.accepted_deposits.insert(tx, amount);
        proof {
            let a0 = old(self)@;
            assert(self@.accepted =~= a0.accepted.insert(tx, amount.units as int));
            assert(self@.disputed =~= a0.disputed);
            assert(self@ == deposit_applied(a0, tx, amount.units as int));
        }
        Ok(())
    }

    /// Debits the withdrawn amount from the available funds.
    pub fn withdraw(&mut self, amount: Money) -> (r: Result<(), AccountError>)
        requires
            account_inv(old(self)@),
        ensures
            account_inv(final(self)@),
            r is Ok <==> withdraw_allowed(old(self)@, amount.units as int),
            r is Ok ==> final(self)@ == withdraw_applied(old(self)@, amount.units as int),
            r is Err ==> final(self)@ == old(self)@,
            r == Err::<(), AccountError>(AccountError::Locked) <==> old(self)@.locked,
            r == Err::<(), AccountError>(AccountError::InsufficientFunds) <==> !old(self)@.locked
                && amount.units > old(self)@.available,
    {
        if self.locked {
            return Err(AccountError::Locked);
        }
        if self.available.ge(amount) {
            self.available = self.available.sub_money(amount);
            proof {
                let a0 = old(self)@;
                assert(self@.accepted =~= a0.accepted);
                assert(self@.disputed =~= a0.disputed);
                assert(self@ == withdraw_applied(a0, amount.units as int));
            }
            Ok(())
        } else {
            Err(AccountError::InsufficientFunds)
        }
    }

    /// Moves the disputed deposit's amount from available to held and the
    /// record from accepted to disputed.
    pub fn dispute(&mut self, disputed_tx: TxId) -> (r: Result<(), AccountError>)
        requires
            account_inv(old(self)@),
        ensures
            account_inv(final(self)@),
            r is Ok <==> dispute_allowed(old(self)@, disputed_tx@),
            r is Ok ==> final(self)@ == dispute_applied(old(self)@, disputed_tx@),
            r is Err ==> final(self)@ == old(self)@,
            r == Err::<(), AccountError>(AccountError::Locked) <==> old(self)@.locked,
            r == Err::<(), AccountError>(AccountError::UnknownTransaction) <==> !old(self)@.locked
                && !old(self)@.accepted.contains_key(disputed_tx@),
            r == Err::<(), AccountError>(AccountError::FundsAlreadyWithdrawn) <==> !old(
                self,
            )@.locked && old(self)@.accepted.contains_key(disputed_tx@) && old(
                self,
            )@.accepted[disputed_tx@] > old(self)@.available,
    {
        if self.locked {
            return Err(AccountError::Locked);
        }
        let tx: u32 = disputed_tx.into();
        let deposit_amount = match self.accepted_deposits.get(&tx) {
            Some(amount) => *amount,
            None => {
                return Err(AccountError::UnknownTransaction);
            },
        };
        if !self.available.ge(deposit_amount) {
            return Err(AccountError::FundsAlreadyWithdrawn);
        }
        self.accepted_deposits.remove(&tx);
        self.available = self.available.sub_money(deposit_amount);
        self.held = self.held.add_money(deposit_amount);
        self.disputed_deposits.insert(tx, deposit_amount);
        proof {
            let a0 = old(self)@;
            let amt = a0.accepted[tx as u32];
            assert(self@.accepted =~= a0.accepted.remove(tx));
            assert(self@.disputed =~= a0.disputed.insert(tx, amt));
            assert(self@ == dispute_applied(a0, tx));
            lemma_map_sum_insert(a0.disputed, tx, amt);
            if a0.disputed.contains_key(tx) {
                lemma_map_sum_entry_bound(a0.disputed, tx);
            }
        }
        Ok(())
    }

    /// Moves the disputed amount back from held to available and makes the
    /// deposit eligible for dispute again.
    pub fn resolve(&mut self, resolved_tx: TxId) -> (r: Result<(), AccountError>)
        requires
            account_inv(old(self)@),
        ensures
            account_inv(final(self)@),
            r is Ok <==> resolve_allowed(old(self)@, resolved_tx@),
            r is Ok ==> final(self)@ == resolve_applied(old(self)@, resolved_tx@),
            r is Err ==> final(self)@ == old(self)@,
            r == Err::<(), AccountError>(AccountError::Locked) <==> old(self)@.locked,
            r == Err::<(), AccountError>(AccountError::UnknownOrUndisputed) <==> !old(
                self,
            )@.locked && !old(self)@.disputed.contains_key(resolved_tx@),
    {
        if self.locked {
            return Err(AccountError::Locked);
        }
        let tx: u32 = resolved_tx.into();
        let resolved_amount = match self.disputed_deposits.remove(&tx) {
            Some(amount) => amount,
            None => {
                proof {
                    assert(self@.disputed =~= old(self)@.disputed);
                    assert(self@ == old(self)@);
                }
                return Err(AccountError::UnknownOrUndisputed);
            },
        };
        proof {
            let a0 = old(self)@;
            lemma_map_sum_entry_bound(a0.disputed, tx as u32);
            lemma_map_sum_remove(a0.disputed, tx as u32);
        }
        self.held = self.held.sub_money(resolved_amount);
        self.available = self.available.add_money(resolved_amount);
        self.accepted_deposits.insert(tx, resolved_amount);
        proof {
            let a0 = old(self)@;
            let amt = a0.disputed[tx as u32];
            assert(self@.accepted =~= a0.accepted.insert(tx, amt));
            assert(self@.disputed =~= a0.disputed.remove(tx));
            assert(self@ == resolve_applied(a0, tx));
        }
        Ok(())
    }

    /// Removes the disputed amount from the held funds for good and locks the
    /// account.
    pub fn chargeback(&mut self, reverted_tx: TxId) -> (r: Result<(), AccountError>)
        requires
            account_inv(old(self)@),
        ensures
            account_inv(final(self)@),
            r is Ok <==> chargeback_allowed(old(self)@, reverted_tx@),
            r is Ok ==> final(self)@ == chargeback_applied(old(self)@, reverted_tx@),
            r is Err ==> final(self)@ == old(self)@,
            r == Err::<(), AccountError>(AccountError::Locked) <==> old(self)@.locked,
            r == Err::<(), AccountError>(AccountError::UnknownOrUndisputed) <==> !old(
                self,
            )@.locked && !old(self)@.disputed.contains_key(reverted_tx@),
    {
        if self.locked {
            return Err(AccountError::Locked);
        }
        let tx: u32 = reverted_tx.into();
        let reverted_amount = match self.disputed_deposits.remove(&tx) {
            Some(amount) => amount,
            None => {
                proof {
                    assert(self@.disputed =~= old(self)@.disputed);
                    assert(self@ == old(self)@);
                }
                return Err(AccountError::UnknownOrUndisputed);
            },
        };
        proof {
            let a0 = old(self)@;
            lemma_map_sum_entry_bound(a0.disputed, tx as u32);
            lemma_map_sum_remove(a0.disputed, tx as u32);
        }
        self.held = self.held.sub_money(reverted_amount);
        self.locked = true;
        proof {
            let a0 = old(self)@;
            assert(self@.accepted =~= a0.accepted);
            assert(self@.disputed =~= a0.disputed.remove(tx));
            assert(self@ == chargeback_applied(a0, tx));
        }
        Ok(())
    }

    /// The money the client may freely withdraw.
    pub fn available_funds(&self) -> (r: Money)
        ensures
            r.units == self@.available,
    {
        self.available
    }

    /// The money temporarily frozen pending dispute resolution.
    pub fn held_funds(&self) -> (r: Money)
        ensures
            r.units == self@.held,
    {
        self.held
    }

    /// Whether a chargeback has permanently locked the account.
    pub fn is_locked(&self) -> (r: bool)
        ensures
            r == self@.locked,
    {
        self.locked
    }
}

/// Law: once any operation on an account is rejected because the account is
/// locked, every operation is: a locked account accepts nothing.
pub proof fn lemma_locked_rejects_all(a: AccountV, tx: u32, amount: int)
    requires
        a.locked,
    ensures
        !deposit_allowed(a, amount),
        !withdraw_allowed(a, amount),
        !dispute_allowed(a, tx),
        !resolve_allowed(a, tx),
        !chargeback_allowed(a, tx),
{
}

/// Law: no operation ever clears the lock flag, and a chargeback sets it:
/// the lock entered by a successful chargeback is terminal.
pub proof fn lemma_lock_is_permanent(a: AccountV, tx: u32, amount: int)
    ensures
        chargeback_applied(a, tx).locked,
        a.locked ==> deposit_applied(a, tx, amount).locked,
        a.locked ==> withdraw_applied(a, amount).locked,
        a.locked ==> dispute_applied(a, tx).locked,
        a.locked ==> resolve_applied(a, tx).locked,
{
}

/// Law: a resolve whose transaction id is not currently under dispute fails;
/// in particular, immediately after a successful resolve of a transaction, a
/// second resolve of the same transaction fails.
pub proof fn lemma_no_double_resolve(a: AccountV, tx: u32)
    requires
        resolve_allowed(a, tx),
    ensures
        !resolve_allowed(resolve_applied(a, tx), tx),
{
}

/// Law: a dispute followed by a resolve of the same transaction restores the
/// exact pre-dispute split of available and held funds, and the deposit is
/// eligible for dispute again with its original amount.
pub proof fn lemma_dispute_resolve_round_trip(a: AccountV, tx: u32)
    requires
        dispute_allowed(a, tx),
    ensures
        resolve_allowed(dispute_applied(a, tx), tx),
        resolve_applied(dispute_applied(a, tx), tx).available == a.available,
        resolve_applied(dispute_applied(a, tx), tx).held == a.held,
        resolve_applied(dispute_applied(a, tx), tx).locked == a.locked,
        resolve_applied(dispute_applied(a, tx), tx).accepted == a.accepted,
        !a.disputed.contains_key(tx) ==> resolve_applied(dispute_applied(a, tx), tx).disputed
            == a.disputed,
{
    let round = resolve_applied(dispute_applied(a, tx), tx);
    assert(round.accepted =~= a.accepted);
    if !a.disputed.contains_key(tx) {
        assert(round.disputed =~= a.disputed);
    }
}

} // verus!
