//! Tests of the conversion from final account state to output records.

use tx_engine_rs::engine::Accounts;
use tx_engine_rs::output::to_account_records;
use tx_engine_rs::{AccountRecord, AccountState, Money};

/// The money value of a plain decimal literal such as `10.0` or `1.5`.
fn money(s: &str) -> Money {
    let (int_part, frac_part) = match s.split_once('.') {
        Some((i, f)) => (i, f),
        None => (s, ""),
    };
    let mut units: u64 = int_part.parse::<u64>().unwrap() * 10_000;
    let mut scale = 1_000u64;
    for c in frac_part.chars() {
        units += c.to_digit(10).unwrap() as u64 * scale;
        scale /= 10;
    }
    Money::from_units(units)
}

#[test]
fn single_account_converts_correctly() {
    let client_id = 1u16;
    let available = money("10.0");
    let held = money("5.0");
    let total = Money::from_units(available.as_units() + held.as_units());
    let locked = false;

    let mut accounts = Accounts::new();
    accounts.insert_account(client_id, AccountState::new(available, held, locked));

    let records: Vec<_> = to_account_records(&accounts);
    assert_eq!(records.len(), 1);
    assert_eq!(
        records[0],
        AccountRecord {
            client: client_id,
            available,
            held,
            total,
            locked,
        }
    );
}

#[test]
fn total_is_sum_of_available_and_held() {
    let available = money("3.3333");
    let held = money("1.6667");
    let expected_total = Money::from_units(available.as_units() + held.as_units());

    let mut accounts = Accounts::new();
    accounts.insert_account(1, AccountState::new(available, held, false));

    let record = to_account_records(&accounts)[0];
    assert_eq!(record.total, expected_total);
}

#[test]
fn locked_account_preserves_locked_flag() {
    let locked = true;

    let mut accounts = Accounts::new();
    accounts.insert_account(1, AccountState::new(money("0.0"), money("0.0"), locked));

    let record = to_account_records(&accounts)[0];
    assert_eq!(record.locked, locked);
}

#[test]
fn empty_map_yields_no_records() {
    let accounts = Accounts::new();
    let records: Vec<_> = to_account_records(&accounts);
    assert!(records.is_empty());
}

#[test]
fn multiple_accounts_yield_one_record_each() {
    let mut accounts = Accounts::new();
    accounts.insert_account(1, AccountState::new(money("1.0"), money("0.0"), false));
    accounts.insert_account(2, AccountState::new(money("2.0"), money("0.0"), false));

    let records: Vec<_> = to_account_records(&accounts);
    assert_eq!(records.len(), 2);
}
