//! Integration tests targeted mainly on the chargeback mechanic.

use tx_engine_rs::{AccountRecord, Error, Money, TransactionRecord, process};

/// The money value of a plain decimal literal such as `10.0` or `1.5`.
fn money(s: &str) -> Money {
    let (int_part, frac_part) = match s.split_once('.') {
        Some((i, f)) => (i, f),
        None => (s, ""),
    };
    let mut units: u64 = int_part.parse::<u64>().unwrap() * 10_000;
    let mut scale = 1_000u64;
    for c in frac_part.chars() {
        units += c.to_digit(10).unwrap() as u64 * scale;
        scale /= 10;
    }
    Money::from_units(units)
}

#[test]
fn deposit_dispute_then_chargeback() {
    let input = "\
type, client, tx, amount
deposit, 1, 1, 10.0
dispute, 1, 1,
chargeback, 1, 1,";

    let expected = AccountRecord {
        client: 1,
        available: money("0"),
        held: money("0"),
        total: money("0"),
        locked: true,
    };

    let out = process(input.as_bytes());
    assert!(out.errors.is_empty(), "expected no errors, got: {:?}", out.errors);
    assert_eq!(out.records.len(), 1);
    assert_eq!(out.records[0], expected);

    assert_eq!(out.successes.len(), 3);
    assert_eq!(
        out.successes[0],
        TransactionRecord::Deposit {
            client: 1,
            tx: 1,
            amount: money("10.0"),
        }
    );
    assert_eq!(
        out.successes[1],
        TransactionRecord::Dispute { client: 1, tx: 1 }
    );
    assert_eq!(
        out.successes[2],
        TransactionRecord::Chargeback { client: 1, tx: 1 }
    );
}

#[test]
fn chargeback_nonexistent_tx() {
    let input = "\
type, client, tx, amount
deposit, 1, 1, 10.0
chargeback, 1, 3,";

    let expected = AccountRecord {
        client: 1,
        available: money("10.0"),
        held: money("0"),
        total: money("10.0"),
        locked: false,
    };

    let out = process(input.as_bytes());
    assert_eq!(out.records.len(), 1);
    assert_eq!(out.records[0], expected);

    assert_eq!(out.successes.len(), 1);
    assert_eq!(out.errors.len(), 1);
    assert!(
        matches!(
            &out.errors[0],
            Error::Processing {
                client_id: 1,
                tx_id: 3,
                ..
            }
        ),
        "expected a processing error for chargeback on nonexistent tx"
    );
}

#[test]
fn chargeback_undisputed_deposit() {
    let input = "\
type, client, tx, amount
deposit, 1, 1, 10.0
chargeback, 1, 1,";

    let expected = AccountRecord {
        client: 1,
        available: money("10.0"),
        held: money("0"),
        total: money("10.0"),
        locked: false,
    };

    let out = process(input.as_bytes());
    assert_eq!(out.records.len(), 1);
    assert_eq!(out.records[0], expected);

    assert_eq!(out.successes.len(), 1);
    assert_eq!(out.errors.len(), 1);
    assert!(
        matches!(
            &out.errors[0],
            Error::Processing {
                client_id: 1,
                tx_id: 1,
                ..
            }
        ),
        "expected a processing error for chargeback on undisputed deposit"
    );
}

#[test]
fn double_chargeback() {
    let input = "\
type, client, tx, amount
deposit, 1, 1, 10.0
dispute, 1, 1,
chargeback, 1, 1,
chargeback, 1, 1,";

    let expected = AccountRecord {
        client: 1,
        available: money("0"),
        held: money("0"),
        total: money("0"),
        locked: true,
    };

    let out = process(input.as_bytes());
    assert_eq!(out.records.len(), 1);
    assert_eq!(out.records[0], expected);

    // Deposit, dispute, first chargeback succeed; second chargeback errors (account frozen)
    assert_eq!(out.successes.len(), 3);
    assert_eq!(out.errors.len(), 1);
    assert!(
        matches!(
            &out.errors[0],
            Error::Processing {
                client_id: 1,
                tx_id: 1,
                ..
            }
        ),
        "expected a processing error for the duplicate chargeback"
    );
}

#[test]
fn frozen_account_rejects_deposit() {
    let input = "\
type, client, tx, amount
deposit, 1, 1, 10.0
dispute, 1, 1,
chargeback, 1, 1,
deposit, 1, 2, 5.0";

    let expected = AccountRecord {
        client: 1,
        available: money("0"),
        held: money("0"),
        total: money("0"),
        locked: true,
    };

    let out = process(input.as_bytes());
    assert_eq!(out.records.len(), 1);
    assert_eq!(out.records[0], expected);

    // Deposit, dispute, chargeback succeed; second deposit rejected (frozen)
    assert_eq!(out.successes.len(), 3);
    assert_eq!(out.errors.len(), 1);
    assert!(
        matches!(
            &out.errors[0],
            Error::Processing {
                client_id: 1,
                tx_id: 2,
                ..
            }
        ),
        "expected a processing error for deposit on frozen account"
    );
}

#[test]
fn frozen_account_rejects_withdrawal() {
    let input = "\
type, client, tx, amount
deposit, 1, 1, 10.0
deposit, 1, 2, 5.0
dispute, 1, 1,
chargeback, 1, 1,
withdrawal, 1, 3, 3.0";

    let expected = AccountRecord {
        client: 1,
        available: money("5"),
        held: money("0"),
        total: money("5"),
        locked: true,
    };

    let out = process(input.as_bytes());
    assert_eq!(out.records.len(), 1);
    assert_eq!(out.records[0], expected);

    // Two deposits, dispute, chargeback succeed; withdrawal rejected (frozen)
    assert_eq!(out.successes.len(), 4);
    assert_eq!(out.errors.len(), 1);
    assert!(
        matches!(
            &out.errors[0],
            Error::Processing {
                client_id: 1,
                tx_id: 3,
                ..
            }
        ),
        "expected a processing error for withdrawal on frozen account"
    );
}

#[test]
fn frozen_account_rejects_dispute() {
    let input = "\
type, client, tx, amount
deposit, 1, 1, 10.0
deposit, 1, 2, 5.0
dispute, 1, 1,
chargeback, 1, 1,
dispute, 1, 2,";

    let expected = AccountRecord {
        client: 1,
        available: money("5"),
        held: money("0"),
        total: money("5"),
        locked: true,
    };

    let out = process(input.as_bytes());
    assert_eq!(out.records.len(), 1);
    assert_eq!(out.records[0], expected);

    // Two deposits, dispute, chargeback succeed; second dispute rejected (frozen)
    assert_eq!(out.successes.len(), 4);
    assert_eq!(out.errors.len(), 1);
    assert!(
        matches!(
            &out.errors[0],
            Error::Processing {
                client_id: 1,
                tx_id: 2,
                ..
            }
        ),
        "expected a processing error for dispute on frozen account"
    );
}

#[test]
fn two_deposits_dispute_and_chargeback_first() {
    let input = "\
type, client, tx, amount
deposit, 1, 1, 10.0
deposit, 1, 2, 20.0
dispute, 1, 1,
chargeback, 1, 1,";

    let expected = AccountRecord {
        client: 1,
        available: money("20"),
        held: money("0"),
        total: money("20"),
        locked: true,
    };

    let out = process(input.as_bytes());
    assert!(out.errors.is_empty(), "expected no errors, got: {:?}", out.errors);
    assert_eq!(out.records.len(), 1);
    assert_eq!(out.records[0], expected);

    // Two deposits, dispute, chargeback — all succeed
    assert_eq!(out.successes.len(), 4);
}

#[test]
fn frozen_account_rejects_chargeback_on_other_dispute() {
    let input = "\
type, client, tx, amount
deposit, 1, 1, 10.0
deposit, 1, 2, 20.0
dispute, 1, 1,
dispute, 1, 2,
chargeback, 1, 1,
chargeback, 1, 2,";

    let expected = AccountRecord {
        client: 1,
        available: money("0"),
        held: money("20"),
        total: money("20"),
        locked: true,
    };

    let out = process(input.as_bytes());
    assert_eq!(out.records.len(), 1);
    assert_eq!(out.records[0], expected);

    // Two deposits, two disputes, first chargeback — all succeed;
    // second chargeback rejected (account frozen)
    assert_eq!(out.successes.len(), 5);
    assert_eq!(out.errors.len(), 1);
    assert!(
        matches!(
            &out.errors[0],
            Error::Processing {
                client_id: 1,
                tx_id: 2,
                ..
            }
        ),
        "expected a processing error for chargeback on frozen account"
    );
}
