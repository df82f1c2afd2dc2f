//! Integration tests for deposit transactions.

use tx_engine_rs::{AccountRecord, Error, Money, TransactionRecord, process};

/// The money value of a plain decimal literal such as `10.0` or `1.5`.
fn money(s: &str) -> Money {
    let (int_part, frac_part) = match s.split_once('.') {
        Some((i, f)) => (i, f),
        None => (s, ""),
    };
    let mut units: u64 = int_part.parse::<u64>().unwrap() * 10_000;
    let mut scale = 1_000u64;
    for c in frac_part.chars() {
        units += c.to_digit(10).unwrap() as u64 * scale;
        scale /= 10;
    }
    Money::from_units(units)
}

#[test]
fn single_deposit() {
    // Arrange
    let input = "\
type, client, tx, amount
deposit, 1, 1, 1.5";

    let expected = AccountRecord {
        client: 1,
        available: money("1.5"),
        held: money("0"),
        total: money("1.5"),
        locked: false,
    };

    // Act
    let out = process(input.as_bytes());
    let records: Vec<AccountRecord> = out.records;
    let successful_txs: Vec<TransactionRecord> = out.successes;
    for e in &out.errors {
        panic!("unexpected error: {}", e.describe());
    }

    // Assert
    assert_eq!(records.len(), 1);
    let actual = records.first().unwrap();
    assert_eq!(expected, *actual);

    assert_eq!(successful_txs.len(), 1);
    assert_eq!(
        successful_txs[0],
        TransactionRecord::Deposit {
            client: 1,
            tx: 1,
            amount: money("1.5"),
        }
    );
}

#[test]
fn deposit_with_zero_amount_is_rejected() {
    let input = "\
type, client, tx, amount
deposit, 1, 1, 0";

    let out = process(input.as_bytes());
    assert!(out.successes.is_empty(), "unexpected success");
    assert!(out.records.is_empty(), "no account should be created");
    assert_eq!(out.errors.len(), 1);
    assert!(
        matches!(
            &out.errors[0],
            Error::Validation {
                client_id: 1,
                tx_id: 1,
                ..
            }
        ),
        "expected a validation error for client 1, tx 1"
    );
}

#[test]
fn deposit_with_negative_amount_is_rejected() {
    let input = "\
type, client, tx, amount
deposit, 1, 1, -5.0";

    let out = process(input.as_bytes());
    assert!(out.successes.is_empty(), "unexpected success");
    assert!(out.records.is_empty(), "no account should be created");
    assert_eq!(out.errors.len(), 1);
    assert!(
        matches!(
            &out.errors[0],
            Error::Validation {
                client_id: 1,
                tx_id: 1,
                ..
            }
        ),
        "expected a validation error for client 1, tx 1"
    );
}

#[test]
fn deposit_with_missing_amount_is_rejected() {
    let input = "\
type, client, tx, amount
deposit, 1, 1,";

    let out = process(input.as_bytes());
    assert!(out.successes.is_empty());
    assert!(out.records.is_empty());
    assert_eq!(out.errors.len(), 1);
    assert!(matches!(
        &out.errors[0],
        Error::Validation {
            client_id: 1,
            tx_id: 1,
            ..
        }
    ));
}

#[test]
fn deposit_amount_keeps_four_decimal_places() {
    let input = "\
type, client, tx, amount
deposit, 1, 1, 1.2345
deposit, 1, 2, 999999.9999";

    let out = process(input.as_bytes());
    assert!(out.errors.is_empty());
    assert_eq!(out.records.len(), 1);
    assert_eq!(out.records[0].available, Money::from_units(12_345 + 9_999_999_999));
    assert_eq!(money("1.2345"), Money::from_units(12_345));
    assert_eq!(money("999999.9999"), Money::from_units(9_999_999_999));
}
