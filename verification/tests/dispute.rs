//! Integration tests targeted mainly on the dispute mechanic.

use tx_engine_rs::{AccountRecord, Error, Money, TransactionRecord, process};

/// The money value of a plain decimal literal such as `10.0` or `1.5`.
fn money(s: &str) -> Money {
    let (int_part, frac_part) = match s.split_once('.') {
        Some((i, f)) => (i, f),
        None => (s, ""),
    };
    let mut units: u64 = int_part.parse::<u64>().unwrap() * 10_000;
    let mut scale = 1_000u64;
    for c in frac_part.chars() {
        units += c.to_digit(10).unwrap() as u64 * scale;
        scale /= 10;
    }
    Money::from_units(units)
}

#[test]
fn deposit_then_dispute() {
    let input = "\
type, client, tx, amount
deposit, 1, 1, 10.0
dispute, 1, 1,";

    let expected = AccountRecord {
        client: 1,
        available: money("0"),
        held: money("10.0"),
        total: money("10.0"),
        locked: false,
    };

    let out = process(input.as_bytes());
    assert!(out.errors.is_empty(), "expected no errors, got: {:?}", out.errors);
    assert_eq!(out.records.len(), 1);
    assert_eq!(out.records[0], expected);

    assert_eq!(out.successes.len(), 2);
    assert_eq!(
        out.successes[0],
        TransactionRecord::Deposit {
            client: 1,
            tx: 1,
            amount: money("10.0"),
        }
    );
    assert_eq!(
        out.successes[1],
        TransactionRecord::Dispute { client: 1, tx: 1 }
    );
}

#[test]
fn dispute_nonexistent_tx() {
    let input = "\
type, client, tx, amount
deposit, 1, 1, 10.0
dispute, 1, 3,";

    let expected = AccountRecord {
        client: 1,
        available: money("10.0"),
        held: money("0"),
        total: money("10.0"),
        locked: false,
    };

    let out = process(input.as_bytes());
    assert_eq!(out.records.len(), 1);
    assert_eq!(out.records[0], expected);

    // Only the deposit succeeds; the dispute on a nonexistent tx errors
    assert_eq!(out.successes.len(), 1);
    assert_eq!(
        out.successes[0],
        TransactionRecord::Deposit {
            client: 1,
            tx: 1,
            amount: money("10.0"),
        }
    );

    assert_eq!(out.errors.len(), 1);
    assert!(
        matches!(
            &out.errors[0],
            Error::Processing {
                client_id: 1,
                tx_id: 3,
                ..
            }
        ),
        "expected a processing error for the dispute on nonexistent tx 3"
    );
}

#[test]
fn dispute_a_withdrawal() {
    let input = "\
type, client, tx, amount
deposit, 1, 1, 10.0
withdrawal, 1, 2, 5.0
dispute, 1, 2,";

    let expected = AccountRecord {
        client: 1,
        available: money("5.0"),
        held: money("0"),
        total: money("5.0"),
        locked: false,
    };

    let out = process(input.as_bytes());
    assert_eq!(out.records.len(), 1);
    assert_eq!(out.records[0], expected);

    // Deposit and withdrawal succeed; dispute on the withdrawal errors
    assert_eq!(out.successes.len(), 2);
    assert_eq!(out.errors.len(), 1);
    assert!(
        matches!(
            &out.errors[0],
            Error::Processing {
                client_id: 1,
                tx_id: 2,
                ..
            }
        ),
        "expected a processing error for disputing a withdrawal"
    );
}

#[test]
fn dispute_insufficient_funds() {
    let input = "\
type, client, tx, amount
deposit, 1, 1, 10.0
withdrawal, 1, 2, 8.0
dispute, 1, 1,";

    // available = 2 after the withdrawal, but the dispute needs 10 → fails
    let expected = AccountRecord {
        client: 1,
        available: money("2.0"),
        held: money("0"),
        total: money("2.0"),
        locked: false,
    };

    let out = process(input.as_bytes());
    assert_eq!(out.records.len(), 1);
    assert_eq!(out.records[0], expected);

    // Deposit and withdrawal succeed; the dispute fails
    assert_eq!(out.successes.len(), 2);
    assert_eq!(out.errors.len(), 1);
    assert!(
        matches!(
            &out.errors[0],
            Error::Processing {
                client_id: 1,
                tx_id: 1,
                ..
            }
        ),
        "expected a processing error for dispute with insufficient available funds"
    );
}

#[test]
fn double_dispute_same_tx() {
    let input = "\
type, client, tx, amount
deposit, 1, 1, 10.0
dispute, 1, 1,
dispute, 1, 1,";

    let expected = AccountRecord {
        client: 1,
        available: money("0"),
        held: money("10.0"),
        total: money("10.0"),
        locked: false,
    };

    let out = process(input.as_bytes());
    assert_eq!(out.records.len(), 1);
    assert_eq!(out.records[0], expected);

    // Deposit and first dispute succeed; second dispute errors
    assert_eq!(out.successes.len(), 2);
    assert_eq!(out.errors.len(), 1);
    assert!(
        matches!(
            &out.errors[0],
            Error::Processing {
                client_id: 1,
                tx_id: 1,
                ..
            }
        ),
        "expected a processing error for the duplicate dispute"
    );
}

#[test]
fn two_deposits_dispute_first() {
    let input = "\
type, client, tx, amount
deposit, 1, 1, 10.0
deposit, 1, 2, 5.0
dispute, 1, 1,";

    let expected = AccountRecord {
        client: 1,
        available: money("5.0"),
        held: money("10.0"),
        total: money("15"),
        locked: false,
    };

    let out = process(input.as_bytes());
    assert!(out.errors.is_empty(), "expected no errors, got: {:?}", out.errors);
    assert_eq!(out.records.len(), 1);
    assert_eq!(out.records[0], expected);

    // All three succeed: two deposits + one dispute
    assert_eq!(out.successes.len(), 3);
}
