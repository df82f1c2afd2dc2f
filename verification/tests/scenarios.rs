//! Scenario-based integration tests: self-contained per-client stories are
//! interleaved into one input and the combined run is checked against each
//! story's expectations.

use std::collections::HashMap;
use tx_engine_rs::{AccountRecord, Error, Money, TransactionRecord, process};

/// The money value of a plain decimal literal such as `10.0` or `1.5`.
fn money(s: &str) -> Money {
    let (int_part, frac_part) = match s.split_once('.') {
        Some((i, f)) => (i, f),
        None => (s, ""),
    };
    let mut units: u64 = int_part.parse::<u64>().unwrap() * 10_000;
    let mut scale = 1_000u64;
    for c in frac_part.chars() {
        units += c.to_digit(10).unwrap() as u64 * scale;
        scale /= 10;
    }
    Money::from_units(units)
}

/// A self-contained per-client test story.
struct Scenario {
    /// Unique client id for this scenario.
    client_id: u16,
    /// Ordered rows (without header) for this client.
    transactions: Vec<String>,
    /// The expected final account state after all transactions.
    expected_account: AccountRecord,
    /// Transaction ids that should be processed successfully.
    expected_successes: Vec<u32>,
    /// Transaction ids that should produce errors.
    expected_errors: Vec<u32>,
}

/// A scenario with one deposit.
fn single(client_id: u16, offset: u32, amount: &str) -> Scenario {
    let tx_id = offset + 1;
    Scenario {
        client_id,
        transactions: vec![format!("deposit, {client_id}, {tx_id}, {amount}")],
        expected_account: AccountRecord {
            client: client_id,
            available: money(amount),
            held: money("0"),
            total: money(amount),
            locked: false,
        },
        expected_successes: vec![tx_id],
        expected_errors: vec![],
    }
}

/// A scenario with two deposits.
fn two(client_id: u16, offset: u32, amounts: [&str; 2]) -> Scenario {
    let total = Money::from_units(money(amounts[0]).as_units() + money(amounts[1]).as_units());
    Scenario {
        client_id,
        transactions: vec![
            format!("deposit, {client_id}, {tx_id}, {a}", tx_id = offset + 1, a = amounts[0]),
            format!("deposit, {client_id}, {tx_id}, {a}", tx_id = offset + 2, a = amounts[1]),
        ],
        expected_account: AccountRecord {
            client: client_id,
            available: total,
            held: money("0"),
            total,
            locked: false,
        },
        expected_successes: vec![offset + 1, offset + 2],
        expected_errors: vec![],
    }
}

/// Takes multiple scenarios and produces a single input with their rows
/// interleaved in an order-preserving way according to the given schedule:
/// a sequence of scenario indices, each appearing exactly as many times as
/// its scenario has rows.
fn interleave(scenarios: &[Scenario], schedule: &[usize]) -> String {
    let mut cursors = vec![0usize; scenarios.len()];
    let mut rows = Vec::with_capacity(schedule.len() + 1);

    rows.push("type, client, tx, amount".to_string());

    for &idx in schedule {
        let scenario = &scenarios[idx];
        let cursor = &mut cursors[idx];
        assert!(
            *cursor < scenario.transactions.len(),
            "schedule references more transactions than scenario {idx} has"
        );
        rows.push(scenario.transactions[*cursor].clone());
        *cursor += 1;
    }

    // Verify every scenario was fully consumed
    for (i, (cursor, scenario)) in cursors.iter().zip(scenarios).enumerate() {
        assert_eq!(
            *cursor,
            scenario.transactions.len(),
            "scenario {i} has {} transactions but schedule only pulled {}",
            scenario.transactions.len(),
            cursor
        );
    }

    rows.join("\n")
}

/// Builds a schedule that references each scenario index exactly as many
/// times as it has transactions, then shuffles it (preserving per-scenario
/// order via the cursor mechanism in `interleave`).
fn build_schedule(scenarios: &[Scenario], seed: u64) -> Vec<usize> {
    // Flat list: [0, 0, ..., 1, 1, ..., 2, ...]
    let mut schedule: Vec<usize> = scenarios
        .iter()
        .enumerate()
        .flat_map(|(i, s)| std::iter::repeat(i).take(s.transactions.len()))
        .collect();

    // Fisher-Yates shuffle with a simple LCG
    let mut rng = seed;
    for i in (1..schedule.len()).rev() {
        rng = rng
            .wrapping_mul(6364136223846793005)
            .wrapping_add(1442695040888963407);
        let j = (rng >> 33) as usize % (i + 1);
        schedule.swap(i, j);
    }

    schedule
}

/// Runs `process` and collects results keyed by client id for easy assertion.
struct ProcessResult {
    accounts: HashMap<u16, AccountRecord>,
    successes: HashMap<u16, Vec<u32>>,
    errors: HashMap<u16, Vec<u32>>,
}

fn tx_record_fields(tx: &TransactionRecord) -> (u16, u32) {
    match tx {
        TransactionRecord::Deposit { client, tx, .. } => (*client, *tx),
        TransactionRecord::Withdrawal { client, tx, .. } => (*client, *tx),
        TransactionRecord::Dispute { client, tx } => (*client, *tx),
        TransactionRecord::Resolve { client, tx } => (*client, *tx),
        TransactionRecord::Chargeback { client, tx } => (*client, *tx),
    }
}

fn run_process(csv_input: &str) -> ProcessResult {
    let out = process(csv_input.as_bytes());

    let mut successes: HashMap<u16, Vec<u32>> = HashMap::new();
    for tx in &out.successes {
        let (client, tx_id) = tx_record_fields(tx);
        successes.entry(client).or_default().push(tx_id);
    }

    let mut errors: HashMap<u16, Vec<u32>> = HashMap::new();
    for e in &out.errors {
        if let Error::Validation {
            client_id, tx_id, ..
        } = e
        {
            errors.entry(*client_id).or_default().push(*tx_id);
        }
    }

    let accounts: HashMap<u16, AccountRecord> =
        out.records.iter().map(|a| (a.client, *a)).collect();

    ProcessResult {
        accounts,
        successes,
        errors,
    }
}

/// Asserts that each scenario's expectations match the process result.
fn assert_scenarios(scenarios: &[Scenario], result: &ProcessResult) {
    for scenario in scenarios {
        let cid = scenario.client_id;

        // --- Account state ---
        let account = result
            .accounts
            .get(&cid)
            .unwrap_or_else(|| panic!("no account record for client {cid}"));
        assert_eq!(
            *account, scenario.expected_account,
            "account mismatch for client {cid}"
        );

        // --- Successful transaction ids ---
        let mut actual_successes = result.successes.get(&cid).cloned().unwrap_or_default();
        actual_successes.sort();
        let mut expected_successes = scenario.expected_successes.clone();
        expected_successes.sort();
        assert_eq!(
            actual_successes, expected_successes,
            "success tx_id mismatch for client {cid}"
        );

        // --- Error transaction ids ---
        let mut actual_errors = result.errors.get(&cid).cloned().unwrap_or_default();
        actual_errors.sort();
        let mut expected_errors = scenario.expected_errors.clone();
        expected_errors.sort();
        assert_eq!(
            actual_errors, expected_errors,
            "error tx_id mismatch for client {cid}"
        );
    }
}

// -- interleave -----------------------------------------------------------

#[test]
fn interleave_two_scenarios_ordered() {
    let scenarios = [
        single(1, 0, "1.0"),           // 1 tx row
        two(2, 1, ["2.0", "3.0"]),     // 2 tx rows
    ];
    let schedule = [0, 1, 1];

    let csv = interleave(&scenarios, &schedule);
    let lines: Vec<&str> = csv.lines().collect();

    assert_eq!(lines[0], "type, client, tx, amount");
    assert_eq!(lines[1], scenarios[0].transactions[0]); // client 1's deposit
    assert_eq!(lines[2], scenarios[1].transactions[0]); // client 2's first deposit
    assert_eq!(lines[3], scenarios[1].transactions[1]); // client 2's second deposit
    assert_eq!(lines.len(), 4);
}

#[test]
fn interleave_preserves_per_scenario_order() {
    let scenarios = [
        two(1, 0, ["1.0", "2.0"]),
        two(2, 2, ["3.0", "4.0"]),
    ];
    let schedule = [1, 0, 0, 1];

    let csv = interleave(&scenarios, &schedule);
    let lines: Vec<&str> = csv.lines().skip(1).collect(); // skip header

    let s0_first = lines
        .iter()
        .position(|l| *l == scenarios[0].transactions[0])
        .unwrap();
    let s0_second = lines
        .iter()
        .position(|l| *l == scenarios[0].transactions[1])
        .unwrap();
    assert!(s0_first < s0_second, "client 1's rows must stay in order");

    let s1_first = lines
        .iter()
        .position(|l| *l == scenarios[1].transactions[0])
        .unwrap();
    let s1_second = lines
        .iter()
        .position(|l| *l == scenarios[1].transactions[1])
        .unwrap();
    assert!(s1_first < s1_second, "client 2's rows must stay in order");
}

#[test]
fn interleave_single_scenario() {
    let s = two(1, 0, ["1.0", "2.0"]);
    let schedule = [0, 0];

    let csv = interleave(&[s], &schedule);
    let lines: Vec<&str> = csv.lines().collect();

    assert_eq!(lines.len(), 3); // header + 2 rows
}

#[test]
#[should_panic(expected = "schedule references more transactions")]
fn interleave_panics_on_overrun() {
    let s = single(1, 0, "1.0"); // 1 tx
    let schedule = [0, 0]; // pulls 2
    interleave(&[s], &schedule);
}

#[test]
#[should_panic(expected = "schedule only pulled")]
fn interleave_panics_on_underrun() {
    let s = two(1, 0, ["1.0", "2.0"]); // 2 txs
    let schedule = [0]; // pulls 1
    interleave(&[s], &schedule);
}

// -- build_schedule -------------------------------------------------------

#[test]
fn build_schedule_has_correct_counts() {
    let s0 = single(1, 0, "1.0"); // 1 tx
    let s1 = two(2, 1, ["2.0", "3.0"]); // 2 txs
    let scenarios = [s0, s1];

    let schedule = build_schedule(&scenarios, 42);

    let count_0 = schedule.iter().filter(|&&i| i == 0).count();
    let count_1 = schedule.iter().filter(|&&i| i == 1).count();
    assert_eq!(count_0, 1);
    assert_eq!(count_1, 2);
    assert_eq!(schedule.len(), 3);
}

#[test]
fn build_schedule_is_deterministic() {
    let make = || [single(1, 0, "1.0"), two(2, 1, ["2.0", "3.0"])];

    let a = build_schedule(&make(), 12345);
    let b = build_schedule(&make(), 12345);
    assert_eq!(a, b);
}

#[test]
fn build_schedule_different_seeds_differ() {
    let make = || {
        [
            two(1, 0, ["1.0", "2.0"]),
            two(2, 2, ["3.0", "4.0"]),
            two(3, 4, ["5.0", "6.0"]),
            two(4, 6, ["7.0", "8.0"]),
        ]
    };

    let a = build_schedule(&make(), 1);
    let b = build_schedule(&make(), 2);
    // 8 elements, different seeds — astronomically unlikely to match
    assert_ne!(a, b);
}

#[test]
fn build_schedule_single_scenario() {
    let s = two(1, 0, ["1.0", "2.0"]);
    let schedule = build_schedule(&[s], 999);
    // Only one scenario, all entries must be 0
    assert_eq!(schedule, vec![0, 0]);
}

// -- full roundtrip -------------------------------------------------------

#[test]
fn single_deposit_roundtrip() {
    let scenarios = [single(1, 0, "5.0")];

    let csv = interleave(&scenarios, &[0]);
    let result = run_process(&csv);
    assert_scenarios(&scenarios, &result);
}

#[test]
fn two_scenarios_roundtrip() {
    let scenarios = [single(1, 0, "3.5"), two(2, 1, ["1.0", "2.0"])];
    let schedule = build_schedule(&scenarios, 42);

    let csv = interleave(&scenarios, &schedule);
    let result = run_process(&csv);
    assert_scenarios(&scenarios, &result);
}
