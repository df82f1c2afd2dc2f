//! Integration tests for the transaction engine as a whole.

use std::collections::HashMap;
use tx_engine_rs::{Error, Money, TransactionRecord, process, process_parallel};

/// The money value of a plain decimal literal such as `10.0` or `1.5`.
fn money(s: &str) -> Money {
    let (int_part, frac_part) = match s.split_once('.') {
        Some((i, f)) => (i, f),
        None => (s, ""),
    };
    let mut units: u64 = int_part.parse::<u64>().unwrap() * 10_000;
    let mut scale = 1_000u64;
    for c in frac_part.chars() {
        units += c.to_digit(10).unwrap() as u64 * scale;
        scale /= 10;
    }
    Money::from_units(units)
}

#[test]
fn empty_input_produces_no_output() {
    let input = "type, client, tx, amount\n";

    let out = process(input.as_bytes());

    assert!(out.records.is_empty(), "expected no accounts");
    assert!(out.successes.is_empty(), "expected no successes");
    assert!(out.errors.is_empty(), "expected no errors");
}

/// A stream over several clients, with deposits, withdrawals, a full
/// dispute lifecycle and some rejected rows.
const MIXED_INPUT: &str = "\
type, client, tx, amount
deposit, 1, 1, 10.0
deposit, 2, 2, 20.0
deposit, 3, 3, 5.5
withdrawal, 1, 4, 3.0
dispute, 2, 2,
withdrawal, 2, 5, 1.0
resolve, 2, 2,
dispute, 3, 3,
chargeback, 3, 3,
withdrawal, 9, 9, 1.0
deposit, 3, 6, 2.0";

/// Money conservation on a concrete stream: the total of available plus
/// held across all accounts equals accepted deposits minus accepted
/// withdrawals minus charged-back amounts.
#[test]
fn money_is_conserved_across_a_mixed_stream() {
    let out = process(MIXED_INPUT.as_bytes());

    let total: u64 = out
        .records
        .iter()
        .map(|r| r.available.as_units() + r.held.as_units())
        .sum();

    // accepted deposits: 10.0 + 20.0 + 5.5 = 35.5
    // accepted withdrawals: 3.0 (the 1.0 of client 2 is rejected mid-dispute,
    // the 1.0 of client 9 has no account, the 2.0 deposit hits a locked account)
    // charged back: 5.5
    let expected = money("35.5").as_units() - money("3.0").as_units()
        - money("5.5").as_units();
    assert_eq!(total, expected);
}

/// The sequential and the sharded engine agree on the final accounts, for
/// every lane count, including a count of zero (normalized to one lane).
#[test]
fn sequential_and_parallel_agree_on_final_accounts() {
    let sequential = process(MIXED_INPUT.as_bytes());
    let mut seq_records = sequential.records.clone();
    seq_records.sort_by_key(|r| r.client);

    for workers in [0usize, 1, 2, 3, 7] {
        let parallel = process_parallel(MIXED_INPUT.as_bytes(), workers);
        let mut par_records = parallel.records.clone();
        par_records.sort_by_key(|r| r.client);
        assert_eq!(seq_records, par_records, "accounts differ at {workers} lanes");
    }
}

/// The per-client sets of successful and failed transaction ids also agree
/// between the sequential and the sharded engine.
#[test]
fn sequential_and_parallel_agree_on_per_client_reports() {
    fn success_sets(successes: &[TransactionRecord]) -> HashMap<u16, Vec<u32>> {
        let mut m: HashMap<u16, Vec<u32>> = HashMap::new();
        for s in successes {
            let (c, x) = match s {
                TransactionRecord::Deposit { client, tx, .. } => (*client, *tx),
                TransactionRecord::Withdrawal { client, tx, .. } => (*client, *tx),
                TransactionRecord::Dispute { client, tx } => (*client, *tx),
                TransactionRecord::Resolve { client, tx } => (*client, *tx),
                TransactionRecord::Chargeback { client, tx } => (*client, *tx),
            };
            m.entry(c).or_default().push(x);
        }
        m
    }

    fn failure_sets(errors: &[Error]) -> HashMap<u16, Vec<u32>> {
        let mut m: HashMap<u16, Vec<u32>> = HashMap::new();
        for e in errors {
            if let Error::Processing {
                client_id, tx_id, ..
            } = e
            {
                m.entry(*client_id).or_default().push(*tx_id);
            }
        }
        m
    }

    let sequential = process(MIXED_INPUT.as_bytes());
    for workers in [1usize, 2, 5] {
        let parallel = process_parallel(MIXED_INPUT.as_bytes(), workers);
        assert_eq!(
            success_sets(&sequential.successes),
            success_sets(&parallel.successes)
        );
        assert_eq!(
            failure_sets(&sequential.errors),
            failure_sets(&parallel.errors)
        );
    }
}

/// A deposit pushing the total balance past the representable maximum is
/// rejected and the account is left unchanged.
#[test]
fn deposit_overflowing_the_balance_is_rejected() {
    let input = "\
type, client, tx, amount
deposit, 1, 1, 1844674407370955.1615
deposit, 1, 2, 0.0001";

    let out = process(input.as_bytes());
    assert_eq!(out.successes.len(), 1);
    assert_eq!(out.errors.len(), 1);
    assert!(matches!(
        &out.errors[0],
        Error::Processing {
            client_id: 1,
            tx_id: 2,
            ..
        }
    ));
    assert_eq!(out.records.len(), 1);
    assert_eq!(out.records[0].available, Money::from_units(u64::MAX));
}
