//! Integration tests targeted mainly on the resolve mechanic.

use tx_engine_rs::{AccountRecord, Error, Money, TransactionRecord, process};

/// The money value of a plain decimal literal such as `10.0` or `1.5`.
fn money(s: &str) -> Money {
    let (int_part, frac_part) = match s.split_once('.') {
        Some((i, f)) => (i, f),
        None => (s, ""),
    };
    let mut units: u64 = int_part.parse::<u64>().unwrap() * 10_000;
    let mut scale = 1_000u64;
    for c in frac_part.chars() {
        units += c.to_digit(10).unwrap() as u64 * scale;
        scale /= 10;
    }
    Money::from_units(units)
}

#[test]
fn deposit_dispute_then_resolve() {
    let input = "\
type, client, tx, amount
deposit, 1, 1, 10.0
dispute, 1, 1,
resolve, 1, 1,";

    let expected = AccountRecord {
        client: 1,
        available: money("10.0"),
        held: money("0"),
        total: money("10.0"),
        locked: false,
    };

    let out = process(input.as_bytes());
    assert!(out.errors.is_empty(), "expected no errors, got: {:?}", out.errors);
    assert_eq!(out.records.len(), 1);
    assert_eq!(out.records[0], expected);

    assert_eq!(out.successes.len(), 3);
    assert_eq!(
        out.successes[0],
        TransactionRecord::Deposit {
            client: 1,
            tx: 1,
            amount: money("10.0"),
        }
    );
    assert_eq!(
        out.successes[1],
        TransactionRecord::Dispute { client: 1, tx: 1 }
    );
    assert_eq!(
        out.successes[2],
        TransactionRecord::Resolve { client: 1, tx: 1 }
    );
}

#[test]
fn resolve_nonexistent_tx() {
    let input = "\
type, client, tx, amount
deposit, 1, 1, 10.0
resolve, 1, 3,";

    let expected = AccountRecord {
        client: 1,
        available: money("10.0"),
        held: money("0"),
        total: money("10.0"),
        locked: false,
    };

    let out = process(input.as_bytes());
    assert_eq!(out.records.len(), 1);
    assert_eq!(out.records[0], expected);

    assert_eq!(out.successes.len(), 1);
    assert_eq!(out.errors.len(), 1);
    assert!(
        matches!(
            &out.errors[0],
            Error::Processing {
                client_id: 1,
                tx_id: 3,
                ..
            }
        ),
        "expected a processing error for resolving a nonexistent tx"
    );
}

#[test]
fn resolve_undisputed_deposit() {
    let input = "\
type, client, tx, amount
deposit, 1, 1, 10.0
resolve, 1, 1,";

    let expected = AccountRecord {
        client: 1,
        available: money("10.0"),
        held: money("0"),
        total: money("10.0"),
        locked: false,
    };

    let out = process(input.as_bytes());
    assert_eq!(out.records.len(), 1);
    assert_eq!(out.records[0], expected);

    // Only the deposit succeeds; the resolve on an undisputed tx errors
    assert_eq!(out.successes.len(), 1);
    assert_eq!(out.errors.len(), 1);
    assert!(
        matches!(
            &out.errors[0],
            Error::Processing {
                client_id: 1,
                tx_id: 1,
                ..
            }
        ),
        "expected a processing error for resolving an undisputed deposit"
    );
}

#[test]
fn double_resolve() {
    let input = "\
type, client, tx, amount
deposit, 1, 1, 10.0
dispute, 1, 1,
resolve, 1, 1,
resolve, 1, 1,";

    let expected = AccountRecord {
        client: 1,
        available: money("10.0"),
        held: money("0"),
        total: money("10.0"),
        locked: false,
    };

    let out = process(input.as_bytes());
    assert_eq!(out.records.len(), 1);
    assert_eq!(out.records[0], expected);

    // Deposit, dispute, first resolve succeed; second resolve errors
    assert_eq!(out.successes.len(), 3);
    assert_eq!(out.errors.len(), 1);
    assert!(
        matches!(
            &out.errors[0],
            Error::Processing {
                client_id: 1,
                tx_id: 1,
                ..
            }
        ),
        "expected a processing error for the duplicate resolve"
    );
}

#[test]
fn resolve_then_re_dispute() {
    let input = "\
type, client, tx, amount
deposit, 1, 1, 10.0
dispute, 1, 1,
resolve, 1, 1,
dispute, 1, 1,";

    let expected = AccountRecord {
        client: 1,
        available: money("0"),
        held: money("10.0"),
        total: money("10.0"),
        locked: false,
    };

    let out = process(input.as_bytes());
    assert!(out.errors.is_empty(), "expected no errors, got: {:?}", out.errors);
    assert_eq!(out.records.len(), 1);
    assert_eq!(out.records[0], expected);

    // All four transactions succeed: deposit, dispute, resolve, re-dispute
    assert_eq!(out.successes.len(), 4);
}

#[test]
fn two_deposits_dispute_and_resolve_first() {
    let input = "\
type, client, tx, amount
deposit, 1, 1, 10.0
deposit, 1, 2, 20.0
dispute, 1, 1,
resolve, 1, 1,";

    let expected = AccountRecord {
        client: 1,
        available: money("30.0"),
        held: money("0"),
        total: money("30.0"),
        locked: false,
    };

    let out = process(input.as_bytes());
    assert!(out.errors.is_empty(), "expected no errors, got: {:?}", out.errors);
    assert_eq!(out.records.len(), 1);
    assert_eq!(out.records[0], expected);

    // Two deposits, dispute, resolve — all succeed
    assert_eq!(out.successes.len(), 4);
}
