//! Stream-level laws of the engine: money conservation across a whole run,
//! and the permanence of the lock entered by a chargeback.

use vstd::prelude::*;
use crate::account::AccountV;
use crate::domain::Transaction;
use crate::engine::{tx_allowed, step_map, run_from, run_flags};
use crate::sums::{sum_over, lemma_sum_remove, lemma_sum_insert, lemma_sum_congruence};

verus! {

/// The total money of an account map: the sum of available plus held funds
/// over all accounts.
pub open spec fn total_sum(m: Map<u16, AccountV>) -> int {
    sum_over(m.dom(), |c: u16| m[c].available + m[c].held)
}

/// Replacing or adding one account changes the total by that account's
/// difference.
proof fn lemma_total_sum_update(m: Map<u16, AccountV>, c: u16, a: AccountV)
    requires
        m.dom().finite(),
    ensures
        m.contains_key(c) ==> total_sum(m.insert(c, a)) == total_sum(m) - (m[c].available
            + m[c].held) + (a.available + a.held),
        !m.contains_key(c) ==> total_sum(m.insert(c, a)) == total_sum(m) + a.available + a.held,
{
    let m1 = m.insert(c, a);
    let f = |c0: u16| m[c0].available + m[c0].held;
    let f1 = |c0: u16| m1[c0].available + m1[c0].held;
    if m.contains_key(c) {
        lemma_sum_remove(m.dom(), f, c);
        lemma_sum_remove(m1.dom(), f1, c);
        assert(m1.dom() =~= m.dom());
        lemma_sum_congruence(m.dom().remove(c), f, f1);
    } else {
        assert(m1.dom() =~= m.dom().insert(c));
        lemma_sum_insert(m.dom(), f1, c);
        lemma_sum_congruence(m.dom(), f, f1);
    }
}

/// How much money one transaction moves into (positive) or out of
/// (negative) the accounts as a whole: an accepted deposit adds its amount,
/// an accepted withdrawal removes its amount, an accepted chargeback removes
/// the disputed deposit's recorded amount, and everything else — rejected
/// transactions, disputes, resolves — moves nothing.
pub open spec fn step_delta(m: Map<u16, AccountV>, t: Transaction) -> int {
    if !tx_allowed(m, t) {
        0
    } else {
        match t {
            Transaction::Deposit(d) => d.spec_amount().units as int,
            Transaction::Withdrawal(w) => -(w.spec_amount().units as int),
            Transaction::Chargeback(_) => -m[t.spec_client()].disputed[t.spec_tx()],
            _ => 0,
        }
    }
}

/// The net flow of a stream: the sum of the accepted deposit amounts, minus
/// the accepted withdrawal amounts, minus the charged-back amounts, in
/// processing order.
pub open spec fn net_flow(m: Map<u16, AccountV>, txs: Seq<Transaction>) -> int
    decreases txs.len(),
{
    if txs.len() == 0 {
        0
    } else {
        step_delta(m, txs[0]) + net_flow(step_map(m, txs[0]), txs.skip(1))
    }
}

/// One step keeps the account map finite.
proof fn lemma_step_dom_finite(m: Map<u16, AccountV>, t: Transaction)
    requires
        m.dom().finite(),
    ensures
        step_map(m, t).dom().finite(),
{
    let c = t.spec_client();
    if tx_allowed(m, t) {
        assert(step_map(m, t).dom() =~= m.dom().insert(c));
    }
}

/// One step changes the total money by exactly its delta.
proof fn lemma_step_conserves(m: Map<u16, AccountV>, t: Transaction)
    requires
        m.dom().finite(),
    ensures
        total_sum(step_map(m, t)) == total_sum(m) + step_delta(m, t),
{
    let c = t.spec_client();
    if tx_allowed(m, t) {
        match t {
            Transaction::Deposit(d) => {
                if m.contains_key(c) {
                    lemma_total_sum_update(
                        m,
                        c,
                        crate::account::deposit_applied(
                            m[c],
                            t.spec_tx(),
                            d.spec_amount().units as int,
                        ),
                    );
                } else {
                    lemma_total_sum_update(
                        m,
                        c,
                        crate::account::deposit_applied(
                            crate::account::new_account(),
                            t.spec_tx(),
                            d.spec_amount().units as int,
                        ),
                    );
                }
            },
            Transaction::Withdrawal(w) => {
                lemma_total_sum_update(
                    m,
                    c,
                    crate::account::withdraw_applied(m[c], w.spec_amount().units as int),
                );
            },
            Transaction::Dispute(_) => {
                lemma_total_sum_update(m, c, crate::account::dispute_applied(m[c], t.spec_tx()));
            },
            Transaction::Resolve(_) => {
                lemma_total_sum_update(m, c, crate::account::resolve_applied(m[c], t.spec_tx()));
            },
            Transaction::Chargeback(_) => {
                lemma_total_sum_update(m, c, crate::account::chargeback_applied(m[c], t.spec_tx()));
            },
        }
    }
}

/// Law: money conservation. At every point of every stream, the total of
/// available plus held funds across all accounts equals what it was at the
/// start plus the net flow so far: the sum of the accepted deposit amounts,
/// minus the accepted withdrawal amounts, minus the charged-back amounts.
/// Rejected transactions, disputes and resolves move no money in or out.
pub proof fn lemma_money_conservation(m: Map<u16, AccountV>, txs: Seq<Transaction>)
    requires
        m.dom().finite(),
    ensures
        run_from(m, txs).dom().finite(),
        total_sum(run_from(m, txs)) == total_sum(m) + net_flow(m, txs),
    decreases txs.len(),
{
    if txs.len() > 0 {
        lemma_step_conserves(m, txs[0]);
        lemma_step_dom_finite(m, txs[0]);
        lemma_money_conservation(step_map(m, txs[0]), txs.skip(1));
    }
}

/// Law: the terminal lock. Once a client's account is locked, every later
/// transaction of that client is rejected, unconditionally and forever, and
/// the account never changes again.
pub proof fn lemma_terminal_lock(m: Map<u16, AccountV>, txs: Seq<Transaction>, c: u16)
    requires
        m.contains_key(c),
        m[c].locked,
    ensures
        run_from(m, txs).contains_key(c),
        run_from(m, txs)[c] == m[c],
        forall|i: int|
            0 <= i < txs.len() && txs[i].spec_client() == c ==> !(#[trigger] run_flags(m, txs)[i]),
    decreases txs.len(),
{
    if txs.len() > 0 {
        let t0 = txs[0];
        let m1 = step_map(m, t0);
        assert(m1.contains_key(c) && m1[c] == m[c]);
        lemma_terminal_lock(m1, txs.skip(1), c);
        if t0.spec_client() == c {
            assert(!tx_allowed(m, t0));
            assert(txs.take(0) =~= Seq::<Transaction>::empty());
            assert(run_flags(m, txs)[0] == tx_allowed(m, t0));
        }
        assert forall|i: int|
            1 <= i < txs.len() && txs[i].spec_client() == c implies !(#[trigger] run_flags(
            m,
            txs,
        )[i]) by {
            assert(txs.take(i) =~= seq![t0] + txs.skip(1).take(i - 1));
            assert((seq![t0] + txs.skip(1).take(i - 1))[0] == t0);
            assert((seq![t0] + txs.skip(1).take(i - 1)).skip(1) =~= txs.skip(1).take(i - 1));
            assert(run_from(m, txs.take(i)) == run_from(m1, txs.skip(1).take(i - 1)));
            assert(txs.skip(1)[i - 1] == txs[i]);
            assert(!run_flags(m1, txs.skip(1))[i - 1]);
        }
    }
}

} // verus!
