//! A transaction-processing engine: an ordered stream of per-client financial
//! transactions (deposits, withdrawals, disputes, resolves, chargebacks) is
//! folded into final per-client account balances, sequentially or sharded
//! across independent lanes keyed by client id.

pub mod account;
pub mod domain;
pub mod engine;
pub mod error;
pub mod input;
pub mod laws;
pub mod money;
pub mod output;
pub mod shard;
pub mod sums;

pub use account::AccountState;
pub use domain::{Transaction, Deposit, Withdrawal, Dispute, Resolve, Chargeback, ClientId, TxId};
pub use error::Error;
pub use money::Money;
pub use output::{AccountRecord, TransactionRecord};

use vstd::prelude::*;
use crate::account::AccountV;
use crate::engine::{run_from, tx_allowed, step_map, success_records, oks, parse_errors,
    err_events, ErrEvent, error_matches, process_transactions, rejection_message, Accounts};
use crate::input::{parsed_rows, parse_transactions, item_matches_row, RowOutcome};
use crate::output::{record_matches, to_account_records};
use crate::shard::{process_transactions_parallel, effective_lanes, lanes_successes,
    lanes_rejections, lanes_rejection_messages};

verus! {

/// The transactions of a sequence of row outcomes, in order.
pub open spec fn row_txs(rows: Seq<RowOutcome>) -> Seq<Transaction>
    decreases rows.len(),
{
    if rows.len() == 0 {
        Seq::empty()
    } else {
        (match rows[0] {
            RowOutcome::Tx { t } => seq![t],
            _ => Seq::empty(),
        }) + row_txs(rows.skip(1))
    }
}

/// One expected entry of a run's error report, stated over row outcomes: a
/// malformed row, a row violating domain rules, or a transaction the
/// accounts rejected.
pub ghost enum ReportEvent {
    Malformed { message: Seq<char> },
    Invalid { client: u16, tx: u32, message: Seq<char> },
    Rejected { client: u16, tx: u32, message: Seq<char> },
}

/// Whether a reported error is the one a report entry calls for, down to
/// its exact description.
pub open spec fn error_matches_report(e: Error, ev: ReportEvent) -> bool {
    match ev {
        ReportEvent::Malformed { message } => e is Csv && e->Csv_message@ == message,
        ReportEvent::Invalid { client, tx, message } => e is Validation
            && e->Validation_client_id == client && e->Validation_tx_id == tx
            && e->Validation_message@ == message,
        ReportEvent::Rejected { client, tx, message } => e is Processing
            && e->Processing_client_id == client && e->Processing_tx_id == tx
            && e->Processing_message@ == message,
    }
}

/// The expected error report of a sequence of row outcomes, in order, when
/// the transactions are applied to `m` as they come.
pub open spec fn report_events(m: Map<u16, AccountV>, rows: Seq<RowOutcome>) -> Seq<ReportEvent>
    decreases rows.len(),
{
    if rows.len() == 0 {
        Seq::empty()
    } else {
        let head: Seq<ReportEvent> = match rows[0] {
            RowOutcome::Malformed { message } => seq![ReportEvent::Malformed { message }],
            RowOutcome::Invalid { client, tx, message } => seq![
                ReportEvent::Invalid { client, tx, message },
            ],
            RowOutcome::Tx { t } => if tx_allowed(m, t) {
                Seq::empty()
            } else {
                seq![
                    ReportEvent::Rejected {
                        client: t.spec_client(),
                        tx: t.spec_tx(),
                        message: rejection_message(m, t),
                    },
                ]
            },
        };
        let m1 = match rows[0] {
            RowOutcome::Tx { t } => step_map(m, t),
            _ => m,
        };
        head + report_events(m1, rows.skip(1))
    }
}

/// The expected error report of the rows alone, before any transaction is
/// applied: the malformed and domain-invalid rows, in order.
pub open spec fn row_parse_events(rows: Seq<RowOutcome>) -> Seq<ReportEvent>
    decreases rows.len(),
{
    if rows.len() == 0 {
        Seq::empty()
    } else {
        (match rows[0] {
            RowOutcome::Malformed { message } => seq![ReportEvent::Malformed { message }],
            RowOutcome::Invalid { client, tx, message } => seq![
                ReportEvent::Invalid { client, tx, message },
            ],
            RowOutcome::Tx { .. } => Seq::empty(),
        }) + row_parse_events(rows.skip(1))
    }
}

/// Whether one engine error event answers to one row-level report entry.
pub open spec fn event_compat(ev: ErrEvent, rev: ReportEvent) -> bool {
    match (ev, rev) {
        (ErrEvent::Forwarded { error }, ReportEvent::Malformed { message }) => error is Csv
            && error->Csv_message@ == message,
        (
            ErrEvent::Forwarded { error },
            ReportEvent::Invalid { client, tx, message },
        ) => error is Validation && error->Validation_client_id == client
            && error->Validation_tx_id == tx && error->Validation_message@ == message,
        (
            ErrEvent::Rejected { client, tx, message },
            ReportEvent::Rejected { client: c2, tx: x2, message: msg2 },
        ) => client == c2 && tx == x2 && message == msg2,
        _ => false,
    }
}

/// Parse results that answer to the rows carry the rows' transactions and
/// call for the rows' error report.
proof fn lemma_rows_to_items(
    m: Map<u16, AccountV>,
    items: Seq<Result<Transaction, Error>>,
    rows: Seq<RowOutcome>,
)
    requires
        items.len() == rows.len(),
        forall|i: int| 0 <= i < rows.len() ==> item_matches_row(#[trigger] items[i], rows[i]),
    ensures
        oks(items) == row_txs(rows),
        err_events(m, items).len() == report_events(m, rows).len(),
        forall|i: int|
            0 <= i < err_events(m, items).len() ==> event_compat(
                #[trigger] err_events(m, items)[i],
                report_events(m, rows)[i],
            ),
        parse_errors(items).len() == row_parse_events(rows).len(),
        forall|i: int|
            0 <= i < parse_errors(items).len() ==> error_matches_report(
                #[trigger] parse_errors(items)[i],
                row_parse_events(rows)[i],
            ),
    decreases items.len(),
{
    if items.len() > 0 {
        assert(item_matches_row(items[0], rows[0]));
        let m1 = match rows[0] {
            RowOutcome::Tx { t } => step_map(m, t),
            _ => m,
        };
        assert(forall|i: int|
            0 <= i < rows.skip(1).len() ==> #[trigger] rows.skip(1)[i] == rows[i + 1]);
        assert(forall|i: int|
            0 <= i < items.skip(1).len() ==> #[trigger] items.skip(1)[i] == items[i + 1]);
        lemma_rows_to_items(m1, items.skip(1), rows.skip(1));
        match rows[0] {
            RowOutcome::Tx { t } => {
                assert(items[0] == Ok::<Transaction, Error>(t));
            },
            _ => {
                assert(items[0] is Err);
            },
        }
        assert(oks(items) =~= row_txs(rows));
    }
}

/// Records listing every account once cover every account: each client of
/// the map appears at some index.
proof fn lemma_records_cover(accounts: Accounts, records: Seq<AccountRecord>)
    requires
        accounts.inv(),
        records.len() == accounts.ids_seq().len(),
        forall|i: int|
            0 <= i < records.len() ==> record_matches(
                accounts.ids_seq()[i],
                accounts.accounts()[accounts.ids_seq()[i]],
                #[trigger] records[i],
            ),
    ensures
        forall|c: u16|
            accounts.accounts().contains_key(c) ==> exists|i: int|
                0 <= i < records.len() && (#[trigger] records[i]).client == c,
{
    assert forall|c: u16| accounts.accounts().contains_key(c) implies exists|i: int|
        0 <= i < records.len() && (#[trigger] records[i]).client == c by {
        assert(accounts.ids_seq().contains(c));
        let j = choose|j: int| 0 <= j < accounts.ids_seq().len() && accounts.ids_seq()[j] == c;
        assert(records[j].client == c);
    }
}

/// Everything one processing run hands back: the final account records, the
/// echoes of the accepted transactions in processing order, and the
/// reported errors.
pub struct ProcessOutput {
    pub records: Vec<AccountRecord>,
    pub successes: Vec<TransactionRecord>,
    pub errors: Vec<Error>,
}

/// Whether the records are exactly the accounts of `m`, one record per
/// account, each reporting its exact balances and lock flag.
pub open spec fn records_are(m: Map<u16, AccountV>, records: Seq<AccountRecord>) -> bool {
    &&& forall|i: int|
        0 <= i < records.len() ==> m.contains_key((#[trigger] records[i]).client)
            && record_matches(records[i].client, m[records[i].client], records[i])
    &&& forall|i: int, j: int|
        0 <= i < j < records.len() ==> (#[trigger] records[i]).client != (
        #[trigger] records[j]).client
    &&& forall|c: u16|
        m.contains_key(c) ==> exists|i: int|
            0 <= i < records.len() && (#[trigger] records[i]).client == c
}

/// What [`process`] promises, all stated over the input bytes alone: the
/// rows are read as [`parsed_rows`] says, the final records are exactly the
/// accounts of the sequential fold of the rows' transactions, the accepted
/// transactions are echoed in arrival order, and the error report lists, in
/// arrival order, each malformed row as a csv error, each domain-invalid
/// row as a validation error with its ids, and each rejected transaction as
/// a processing error with its ids.
pub open spec fn process_reports(input: Seq<u8>, out: ProcessOutput) -> bool {
    let rows = parsed_rows(input);
    let txs = row_txs(rows);
    let report = report_events(Map::empty(), rows);
    &&& records_are(run_from(Map::empty(), txs), out.records@)
    &&& out.successes@ == success_records(Map::empty(), txs)
    &&& out.errors@.len() == report.len()
    &&& forall|i: int|
        0 <= i < report.len() ==> error_matches_report(#[trigger] out.errors@[i], report[i])
}

/// Processes the transaction rows of `input` in arrival order against
/// in-memory accounts, entirely on the calling thread, and returns the
/// final balances, the accepted transactions and the rejected ones. No
/// error aborts the run: every rejected row is reported and skipped.
pub fn process(input: &[u8]) -> (out: ProcessOutput)
    ensures
        process_reports(input@, out),
{
    let items = parse_transactions(input);
    let ghost items_g = items@;
    let ghost rows = parsed_rows(input@);
    let run = process_transactions(items);
    proof {
        lemma_rows_to_items(Map::empty(), items_g, rows);
        assert forall|i: int|
            0 <= i < report_events(Map::empty(), rows).len() implies error_matches_report(
            #[trigger] run.errors@[i],
            report_events(Map::empty(), rows)[i],
        ) by {
            assert(error_matches(run.errors@[i], err_events(Map::empty(), items_g)[i]));
            assert(event_compat(
                err_events(Map::empty(), items_g)[i],
                report_events(Map::empty(), rows)[i],
            ));
        }
    }
    let records = to_account_records(&run.accounts);
    proof {
        lemma_records_cover(run.accounts, records@);
    }
    ProcessOutput { records, successes: run.successes, errors: run.errors }
}

/// What [`process_parallel`] promises: the final records are exactly the
/// accounts of the sequential fold — sharding is invisible in the balances;
/// the accepted transactions are echoed lane by lane, each lane in arrival
/// order; and the error report lists first the malformed and domain-invalid
/// rows in arrival order, then each lane's rejected transactions as
/// processing errors with their ids, lane by lane.
pub open spec fn process_parallel_reports(
    input: Seq<u8>,
    num_workers: usize,
    out: ProcessOutput,
) -> bool {
    let rows = parsed_rows(input);
    let txs = row_txs(rows);
    let w = effective_lanes(num_workers);
    let parse_report = row_parse_events(rows);
    let rejs = lanes_rejections(txs, w, w);
    let rej_msgs = lanes_rejection_messages(txs, w, w);
    &&& records_are(run_from(Map::empty(), txs), out.records@)
    &&& out.successes@ == lanes_successes(txs, w, w)
    &&& out.errors@.len() == parse_report.len() + rejs.len()
    &&& rej_msgs.len() == rejs.len()
    &&& (forall|i: int|
        0 <= i < parse_report.len() ==> error_matches_report(
            #[trigger] out.errors@[i],
            parse_report[i],
        ))
    &&& (forall|j: int|
        0 <= j < rejs.len() ==> (#[trigger] out.errors@[parse_report.len() + j]) is Processing
            && out.errors@[parse_report.len() + j]->Processing_client_id == rejs[j].spec_client()
            && out.errors@[parse_report.len() + j]->Processing_tx_id == rejs[j].spec_tx()
            && out.errors@[parse_report.len() + j]->Processing_message@ == rej_msgs[j])
}

/// Processes the transaction rows of `input` sharded across `num_workers`
/// independent lanes keyed by `client id mod num_workers` (zero is
/// normalized to one lane). Each lane applies its own clients' transactions
/// in arrival order against its private accounts; the final balances are
/// provably identical with [`process`]'s.
pub fn process_parallel(input: &[u8], num_workers: usize) -> (out: ProcessOutput)
    ensures
        process_parallel_reports(input@, num_workers, out),
{
    let items = parse_transactions(input);
    let ghost items_g = items@;
    let ghost rows = parsed_rows(input@);
    let run = process_transactions_parallel(items, num_workers);
    proof {
        lemma_rows_to_items(Map::empty(), items_g, rows);
    }
    let records = to_account_records(&run.accounts);
    proof {
        lemma_records_cover(run.accounts, records@);
    }
    ProcessOutput { records, successes: run.successes, errors: run.errors }
}

} // verus!
