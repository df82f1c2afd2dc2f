//! Tests of the row parser.

use tx_engine_rs::input::parse_transactions;
use tx_engine_rs::{ClientId, Deposit, Error, Money, Transaction, TxId, process};

/// The money value of a plain decimal literal such as `10.0` or `1.5`.
fn money(s: &str) -> Money {
    let (int_part, frac_part) = match s.split_once('.') {
        Some((i, f)) => (i, f),
        None => (s, ""),
    };
    let mut units: u64 = int_part.parse::<u64>().unwrap() * 10_000;
    let mut scale = 1_000u64;
    for c in frac_part.chars() {
        units += c.to_digit(10).unwrap() as u64 * scale;
        scale /= 10;
    }
    Money::from_units(units)
}

/// Helper: parse an input and collect all results.
fn parse_csv(input: &str) -> Vec<Result<Transaction, Error>> {
    parse_transactions(input.as_bytes())
}

/// Helper: parse an input, assert all rows succeed, return the transactions.
fn parse_csv_ok(input: &str) -> Vec<Transaction> {
    parse_csv(input)
        .into_iter()
        .collect::<Result<Vec<_>, _>>()
        .expect("all rows should parse successfully")
}

#[test]
fn two_deposits() {
    let input = "\
type, client, tx, amount
deposit, 1, 1, 1.0
deposit, 2, 2, 2.0";

    let txs = parse_csv_ok(input);
    assert_eq!(txs.len(), 2);

    assert_eq!(
        txs[0],
        Transaction::Deposit(
            Deposit::new(ClientId::new(1), TxId::new(1), money("1.0")).unwrap()
        )
    );
    assert_eq!(
        txs[1],
        Transaction::Deposit(
            Deposit::new(ClientId::new(2), TxId::new(2), money("2.0")).unwrap()
        )
    );
}

#[test]
fn empty_file_yields_no_transactions() {
    let input = "type, client, tx, amount";

    let txs = parse_csv_ok(input);
    assert!(txs.is_empty());
}

#[test]
fn malformed_client_id_yields_csv_error() {
    let input = "\
type, client, tx, amount
deposit, abc, 1, 1.0";

    let results = parse_csv(input);
    assert_eq!(results.len(), 1);
    assert!(matches!(&results[0], Err(Error::Csv { .. })));
}

#[test]
fn malformed_amount_yields_csv_error() {
    let input = "\
type, client, tx, amount
deposit, 1, 1, 1.2.3";

    let results = parse_csv(input);
    assert_eq!(results.len(), 1);
    assert!(matches!(&results[0], Err(Error::Csv { .. })));
}

#[test]
fn wrong_field_count_yields_csv_error() {
    let input = "\
type, client, tx, amount
dispute, 1, 1";

    let results = parse_csv(input);
    assert_eq!(results.len(), 1);
    assert!(matches!(&results[0], Err(Error::Csv { .. })));
}

#[test]
fn unknown_transaction_type_yields_validation_error() {
    let input = "\
type, client, tx, amount
transfer, 1, 1, 1.0";

    let results = parse_csv(input);
    assert_eq!(results.len(), 1);
    assert!(matches!(
        &results[0],
        Err(Error::Validation {
            client_id: 1,
            tx_id: 1,
            ..
        })
    ));
}

#[test]
fn dispute_with_amount_yields_validation_error() {
    let input = "\
type, client, tx, amount
dispute, 1, 1, 2.0";

    let results = parse_csv(input);
    assert_eq!(results.len(), 1);
    assert!(matches!(
        &results[0],
        Err(Error::Validation {
            client_id: 1,
            tx_id: 1,
            ..
        })
    ));
}

#[test]
fn bad_header_yields_single_csv_error() {
    let input = "\
kind, who, id, value
deposit, 1, 1, 1.0
deposit, 2, 2, 2.0";

    let out = process(input.as_bytes());
    assert!(out.records.is_empty());
    assert!(out.successes.is_empty());
    assert_eq!(out.errors.len(), 1);
    assert!(matches!(&out.errors[0], Error::Csv { .. }));
}

#[test]
fn blank_lines_are_skipped() {
    let input = "\
type, client, tx, amount

deposit, 1, 1, 1.0

deposit, 2, 2, 2.0
";

    let txs = parse_csv_ok(input);
    assert_eq!(txs.len(), 2);
}
