//! Parsing of comma-separated transaction rows into validated domain types.
//!
//! The accepted format, defined by the spec functions below, is: lines
//! separated by newlines, blank lines skipped; the first line is the header
//! `type, client, tx, amount`; every other line holds exactly four
//! comma-separated fields, trimmed of surrounding blanks — a transaction
//! kind, a client id, a transaction id, and an optional fixed-point amount
//! with up to four decimal places. A malformed row yields a [`Error::Csv`];
//! a well-formed row violating domain rules (a non-positive amount, an
//! amount on a dispute) yields a [`Error::Validation`] carrying the row's
//! client and transaction ids.

use vstd::prelude::*;
use crate::domain::{Transaction, Deposit, Withdrawal, Dispute, Resolve, Chargeback, ClientId,
    TxId};
use crate::error::{Error, validation_error};
use crate::money::Money;
use crate::shard::{sel, lemma_sel_snoc, lemma_sel_concat};

verus! {

broadcast use crate::domain::lemma_client_id_spec_new, crate::domain::lemma_tx_id_spec_new,
    crate::domain::lemma_deposit_spec_new, crate::domain::lemma_withdrawal_spec_new,
    crate::domain::lemma_dispute_spec_new, crate::domain::lemma_resolve_spec_new,
    crate::domain::lemma_chargeback_spec_new;

/// Byte values the format gives meaning to.
pub const NEWLINE: u8 = 10;
pub const COMMA: u8 = 44;
pub const MINUS: u8 = 45;
pub const DOT: u8 = 46;

/// Blanks trimmed from the edges of a field: space, tab, carriage return.
pub open spec fn is_blank(b: u8) -> bool {
    b == 32 || b == 9 || b == 13
}

pub open spec fn is_digit(b: u8) -> bool {
    48 <= b <= 57
}

/// The index of the first occurrence of `b`, or the length if there is none.
pub open spec fn first_in(s: Seq<u8>, b: u8) -> int
    decreases s.len(),
{
    if s.len() == 0 {
        0
    } else if s[0] == b {
        0
    } else {
        1 + first_in(s.skip(1), b)
    }
}

pub proof fn lemma_first_in(s: Seq<u8>, b: u8)
    ensures
        0 <= first_in(s, b) <= s.len(),
        forall|j: int| 0 <= j < first_in(s, b) ==> s[j] != b,
        first_in(s, b) < s.len() ==> s[first_in(s, b)] == b,
    decreases s.len(),
{
    if s.len() > 0 && s[0] != b {
        lemma_first_in(s.skip(1), b);
        assert forall|j: int| 0 <= j < first_in(s, b) implies s[j] != b by {
            if j > 0 {
                assert(s.skip(1)[j - 1] != b);
            }
        }
    }
}

/// The segments of `s` between occurrences of the separator `b`: always one
/// more segment than separators, so an empty input has one empty segment.
pub open spec fn split_on(s: Seq<u8>, b: u8) -> Seq<Seq<u8>>
    decreases s.len(),
    via split_on_decreases
{
    let d = first_in(s, b);
    if d == s.len() {
        seq![s]
    } else {
        seq![s.take(d)] + split_on(s.skip(d + 1), b)
    }
}

#[via_fn]
proof fn split_on_decreases(s: Seq<u8>, b: u8) {
    lemma_first_in(s, b);
}

/// Appending one byte extends the last segment, or opens a new empty one if
/// the byte is the separator.
pub proof fn lemma_split_on_snoc(s: Seq<u8>, x: u8, b: u8)
    ensures
        split_on(s.push(x), b) == if x == b {
            split_on(s, b).push(Seq::<u8>::empty())
        } else {
            split_on(s, b).update(
                split_on(s, b).len() - 1,
                split_on(s, b).last().push(x),
            )
        },
        split_on(s, b).len() >= 1,
    decreases s.len(),
{
    lemma_first_in(s, b);
    lemma_first_in(s.push(x), b);
    let d = first_in(s, b);
    let e = s.push(x);
    let de = first_in(e, b);
    if d == s.len() {
        // no separator in `s`
        if x == b {
            assert(de == s.len()) by {
                assert(e[s.len() as int] == b);
                assert(forall|j: int| 0 <= j < s.len() ==> e[j] == s[j] && s[j] != b);
            }
            assert(e.take(de) =~= s);
            assert(e.skip(de + 1) =~= Seq::<u8>::empty());
            assert(split_on(Seq::<u8>::empty(), b) =~= seq![Seq::<u8>::empty()]);
            assert(split_on(e, b) =~= split_on(s, b).push(Seq::<u8>::empty()));
        } else {
            assert(de == e.len()) by {
                assert(forall|j: int| 0 <= j < e.len() ==> e[j] != b);
            }
            assert(seq![e] =~= split_on(s, b).update(0, s.push(x)));
        }
    } else {
        // the first separator of `s` is also the first of `s.push(x)`
        assert(de == d) by {
            assert(e[d] == b);
            assert(forall|j: int| 0 <= j < d ==> e[j] == s[j] && s[j] != b);
        }
        assert(e.take(d) =~= s.take(d));
        assert(e.skip(d + 1) =~= s.skip(d + 1).push(x));
        lemma_split_on_snoc(s.skip(d + 1), x, b);
        let rest = split_on(s.skip(d + 1), b);
        if x == b {
            assert(split_on(e, b) =~= split_on(s, b).push(Seq::<u8>::empty()));
        } else {
            assert(split_on(e, b) =~= split_on(s, b).update(
                split_on(s, b).len() - 1,
                split_on(s, b).last().push(x),
            ));
        }
    }
}

/// `s` without leading blanks.
pub open spec fn trim_front(s: Seq<u8>) -> Seq<u8>
    decreases s.len(),
{
    if s.len() > 0 && is_blank(s[0]) {
        trim_front(s.skip(1))
    } else {
        s
    }
}

/// `s` without trailing blanks.
pub open spec fn trim_back(s: Seq<u8>) -> Seq<u8>
    decreases s.len(),
{
    if s.len() > 0 && is_blank(s.last()) {
        trim_back(s.drop_last())
    } else {
        s
    }
}

/// `s` without leading and trailing blanks.
pub open spec fn trim(s: Seq<u8>) -> Seq<u8> {
    trim_back(trim_front(s))
}

/// Skipping exactly the leading blanks is what `trim_front` does.
pub proof fn lemma_trim_front_is_skip(s: Seq<u8>, k: int)
    requires
        0 <= k <= s.len(),
        forall|j: int| 0 <= j < k ==> is_blank(#[trigger] s[j]),
        k < s.len() ==> !is_blank(s[k]),
    ensures
        trim_front(s) == s.skip(k),
    decreases k,
{
    if k == 0 {
        assert(s.skip(0) =~= s);
    } else {
        assert(is_blank(s[0]));
        assert(forall|j: int| 0 <= j < s.skip(1).len() ==> #[trigger] s.skip(1)[j] == s[j + 1]);
        lemma_trim_front_is_skip(s.skip(1), k - 1);
        assert(s.skip(1).skip(k - 1) =~= s.skip(k));
    }
}

/// Dropping exactly the trailing blanks is what `trim_back` does.
pub proof fn lemma_trim_back_is_take(s: Seq<u8>, k: int)
    requires
        0 <= k <= s.len(),
        forall|j: int| k <= j < s.len() ==> is_blank(#[trigger] s[j]),
        k > 0 ==> !is_blank(s[k - 1]),
    ensures
        trim_back(s) == s.take(k),
    decreases s.len() - k,
{
    if k == s.len() {
        assert(s.take(k) =~= s);
    } else {
        assert(is_blank(s.last()));
        lemma_trim_back_is_take(s.drop_last(), k);
        assert(s.drop_last().take(k) =~= s.take(k));
    }
}

/// The numeric value of a digit string.
pub open spec fn digits_value(s: Seq<u8>) -> int
    decreases s.len(),
{
    if s.len() == 0 {
        0
    } else {
        digits_value(s.drop_last()) * 10 + (s.last() - 48)
    }
}

/// A non-empty string of decimal digits.
pub open spec fn all_digits(s: Seq<u8>) -> bool {
    s.len() > 0 && forall|i: int| 0 <= i < s.len() ==> is_digit(#[trigger] s[i])
}

pub proof fn lemma_digits_value_nonneg(s: Seq<u8>)
    requires
        forall|i: int| 0 <= i < s.len() ==> is_digit(#[trigger] s[i]),
    ensures
        digits_value(s) >= 0,
    decreases s.len(),
{
    if s.len() > 0 {
        lemma_digits_value_nonneg(s.drop_last());
    }
}

/// A digit string is worth at least any of its prefixes.
pub proof fn lemma_digits_value_monotone(s: Seq<u8>, k: int)
    requires
        forall|i: int| 0 <= i < s.len() ==> is_digit(#[trigger] s[i]),
        0 <= k <= s.len(),
    ensures
        digits_value(s) >= digits_value(s.take(k)),
    decreases s.len() - k,
{
    if k < s.len() {
        lemma_digits_value_monotone(s, k + 1);
        assert(s.take(k + 1).drop_last() =~= s.take(k));
        lemma_digits_value_nonneg(s.take(k));
        assert(digits_value(s.take(k + 1)) == digits_value(s.take(k)) * 10 + (s[k] - 48));
    } else {
        assert(s.take(k) =~= s);
    }
}


/// Powers of ten.
pub open spec fn pow10(n: int) -> int
    decreases n,
{
    if n <= 0 {
        1
    } else {
        10 * pow10(n - 1)
    }
}

/// The keyword `deposit` as bytes.
pub open spec fn kw_deposit() -> Seq<u8> {
    seq![100u8, 101u8, 112u8, 111u8, 115u8, 105u8, 116u8]
}

/// The keyword `withdrawal` as bytes.
pub open spec fn kw_withdrawal() -> Seq<u8> {
    seq![119u8, 105u8, 116u8, 104u8, 100u8, 114u8, 97u8, 119u8, 97u8, 108u8]
}

/// The keyword `dispute` as bytes.
pub open spec fn kw_dispute() -> Seq<u8> {
    seq![100u8, 105u8, 115u8, 112u8, 117u8, 116u8, 101u8]
}

/// The keyword `resolve` as bytes.
pub open spec fn kw_resolve() -> Seq<u8> {
    seq![114u8, 101u8, 115u8, 111u8, 108u8, 118u8, 101u8]
}

/// The keyword `chargeback` as bytes.
pub open spec fn kw_chargeback() -> Seq<u8> {
    seq![99u8, 104u8, 97u8, 114u8, 103u8, 101u8, 98u8, 97u8, 99u8, 107u8]
}

/// The header cells `type`, `client`, `tx`, `amount` as bytes.
pub open spec fn header_cells() -> Seq<Seq<u8>> {
    seq![
        seq![116u8, 121u8, 112u8, 101u8],
        seq![99u8, 108u8, 105u8, 101u8, 110u8, 116u8],
        seq![116u8, 120u8],
        seq![97u8, 109u8, 111u8, 117u8, 110u8, 116u8],
    ]
}

/// The value of an unsigned decimal field, when it is one and fits below
/// the bound.
pub open spec fn uint_rep(s: Seq<u8>, bound: int) -> Option<int> {
    if all_digits(s) && digits_value(s) <= bound {
        Some(digits_value(s))
    } else {
        None
    }
}

/// The reading of an amount field: an optional minus sign, integer digits,
/// and optionally a dot followed by one to four fraction digits. The value
/// is in minor units (ten-thousandths) and must be representable; the flag
/// tells whether the literal was negative.
pub open spec fn amount_rep(s: Seq<u8>) -> Option<(bool, int)> {
    let neg = s.len() > 0 && s[0] == MINUS;
    let body = if neg {
        s.skip(1)
    } else {
        s
    };
    let d = first_in(body, DOT);
    let ip = body.take(d);
    let fp = body.skip(d + 1);
    if d == body.len() {
        if all_digits(ip) && digits_value(ip) * 10000 <= u64::MAX {
            Some((neg, digits_value(ip) * 10000))
        } else {
            None
        }
    } else {
        if all_digits(ip) && all_digits(fp) && fp.len() <= 4 {
            let v = digits_value(ip) * 10000 + digits_value(fp) * pow10(4 - fp.len());
            if v <= u64::MAX {
                Some((neg, v))
            } else {
                None
            }
        } else {
            None
        }
    }
}

/// What one data row calls for.
pub ghost enum RowOutcome {
    /// A validated transaction.
    Tx { t: Transaction },
    /// A well-formed row violating domain rules; reported with its ids and
    /// the exact description.
    Invalid { client: u16, tx: u32, message: Seq<char> },
    /// A row the format does not admit, with the exact description.
    Malformed { message: Seq<char> },
}

/// The outcome a row of trimmed fields calls for.
pub open spec fn row_outcome(fields: Seq<Seq<u8>>) -> RowOutcome {
    if fields.len() != 4 {
        RowOutcome::Malformed { message: "wrong number of fields"@ }
    } else {
        let tyf = fields[0];
        let clf = fields[1];
        let txf = fields[2];
        let amf = fields[3];
        match (uint_rep(clf, u16::MAX as int), uint_rep(txf, u32::MAX as int)) {
            (Some(client), Some(tx)) => {
                let c = client as u16;
                let x = tx as u32;
                if tyf == kw_deposit() || tyf == kw_withdrawal() {
                    if amf.len() == 0 {
                        RowOutcome::Invalid {
                            client: c,
                            tx: x,
                            message: if tyf == kw_deposit() {
                                "no amount provided for deposit"@
                            } else {
                                "no amount provided for withdrawal"@
                            },
                        }
                    } else {
                        match amount_rep(amf) {
                            Option::None => RowOutcome::Malformed {
                                message: "malformed amount"@,
                            },
                            Option::Some((neg, v)) => if neg || v == 0 {
                                RowOutcome::Invalid {
                                    client: c,
                                    tx: x,
                                    message: if tyf == kw_deposit() {
                                        "the deposited amount must be positive"@
                                    } else {
                                        "the withdrawn amount must be positive"@
                                    },
                                }
                            } else if tyf == kw_deposit() {
                                RowOutcome::Tx {
                                    t: Transaction::Deposit(
                                        spec_deposit(c, x, v as u64),
                                    ),
                                }
                            } else {
                                RowOutcome::Tx {
                                    t: Transaction::Withdrawal(
                                        spec_withdrawal(c, x, v as u64),
                                    ),
                                }
                            },
                        }
                    }
                } else if tyf == kw_dispute() || tyf == kw_resolve() || tyf == kw_chargeback() {
                    if amf.len() != 0 {
                        RowOutcome::Invalid {
                            client: c,
                            tx: x,
                            message: if tyf == kw_dispute() {
                                "an amount must not be provided with a dispute transaction"@
                            } else if tyf == kw_resolve() {
                                "an amount must not be provided with a resolve transaction"@
                            } else {
                                "an amount must not be provided with a chargeback transaction"@
                            },
                        }
                    } else if tyf == kw_dispute() {
                        RowOutcome::Tx { t: spec_dispute(c, x) }
                    } else if tyf == kw_resolve() {
                        RowOutcome::Tx { t: spec_resolve(c, x) }
                    } else {
                        RowOutcome::Tx { t: spec_chargeback(c, x) }
                    }
                } else {
                    RowOutcome::Invalid {
                        client: c,
                        tx: x,
                        message: "unknown transaction type"@,
                    }
                }
            },
            _ => RowOutcome::Malformed { message: "malformed client or transaction id"@ },
        }
    }
}

/// The deposit a row with these values describes.
pub open spec fn spec_deposit(c: u16, x: u32, units: u64) -> Deposit {
    Deposit::spec_new(ClientId::spec_new(c), TxId::spec_new(x), Money { units })
}

/// The withdrawal a row with these values describes.
pub open spec fn spec_withdrawal(c: u16, x: u32, units: u64) -> Withdrawal {
    Withdrawal::spec_new(ClientId::spec_new(c), TxId::spec_new(x), Money { units })
}

/// The dispute a row with these values describes.
pub open spec fn spec_dispute(c: u16, x: u32) -> Transaction {
    Transaction::Dispute(Dispute::spec_new(ClientId::spec_new(c), TxId::spec_new(x)))
}

/// The resolve a row with these values describes.
pub open spec fn spec_resolve(c: u16, x: u32) -> Transaction {
    Transaction::Resolve(Resolve::spec_new(ClientId::spec_new(c), TxId::spec_new(x)))
}

/// The chargeback a row with these values describes.
pub open spec fn spec_chargeback(c: u16, x: u32) -> Transaction {
    Transaction::Chargeback(Chargeback::spec_new(ClientId::spec_new(c), TxId::spec_new(x)))
}

/// The comma-separated fields of a line, each trimmed of surrounding blanks.
pub open spec fn fields_of(line: Seq<u8>) -> Seq<Seq<u8>> {
    split_on(line, COMMA).map_values(|f: Seq<u8>| trim(f))
}

/// Whether a line is the expected header row.
pub open spec fn header_ok(line: Seq<u8>) -> bool {
    fields_of(line) == header_cells()
}

/// What a whole input calls for, row by row: blank lines are skipped, the
/// first remaining line must be the header (a bad header is one malformed
/// row and nothing more), and every further line is read as a data row.
pub open spec fn parsed_rows(input: Seq<u8>) -> Seq<RowOutcome> {
    let lines = split_on(input, NEWLINE);
    let content = sel(lines, |l: Seq<u8>| trim(l).len() != 0);
    if content.len() == 0 {
        Seq::empty()
    } else if !header_ok(content[0]) {
        seq![RowOutcome::Malformed { message: "malformed header row"@ }]
    } else {
        content.skip(1).map_values(|l: Seq<u8>| row_outcome(fields_of(l)))
    }
}

/// Whether a parse result is the one a row outcome calls for.
pub open spec fn item_matches_row(item: Result<Transaction, Error>, row: RowOutcome) -> bool {
    match row {
        RowOutcome::Tx { t } => item == Ok::<Transaction, Error>(t),
        RowOutcome::Invalid { client, tx, message } => item is Err && item->Err_0 is Validation
            && item->Err_0->Validation_client_id == client && item->Err_0->Validation_tx_id == tx
            && item->Err_0->Validation_message@ == message,
        RowOutcome::Malformed { message } => item is Err && item->Err_0 is Csv
            && item->Err_0->Csv_message@ == message,
    }
}

/// Whether a sequence of parse results is what the input calls for.
pub open spec fn items_match(input: Seq<u8>, items: Seq<Result<Transaction, Error>>) -> bool {
    let rows = parsed_rows(input);
    &&& items.len() == rows.len()
    &&& forall|i: int| 0 <= i < rows.len() ==> item_matches_row(#[trigger] items[i], rows[i])
}

fn blank(b: u8) -> (r: bool)
    ensures
        r == is_blank(b),
{
    b == 32 || b == 9 || b == 13
}

fn bytes_eq(a: &Vec<u8>, b: &Vec<u8>) -> (r: bool)
    ensures
        r == (a@ == b@),
{
    if a.len() != b.len() {
        proof {
            assert(a@ != b@);
        }
        return false;
    }
    let n = a.len();
    let mut i: usize = 0;
    while i < n
        invariant
            n == a@.len() == b@.len(),
            i <= n,
            forall|j: int| 0 <= j < i ==> a@[j] == b@[j],
        decreases n - i,
    {
        if a[i] != b[i] {
            proof {
                assert(a@ != b@);
            }
            return false;
        }
        i = i + 1;
    }
    proof {
        assert(a@ =~= b@);
    }
    true
}

fn keyword_deposit() -> (r: Vec<u8>)
    ensures
        r@ == kw_deposit(),
{
    let v: Vec<u8> = vec![100u8, 101, 112, 111, 115, 105, 116];
    proof {
        assert(v@ =~= kw_deposit());
    }
    v
}

fn keyword_withdrawal() -> (r: Vec<u8>)
    ensures
        r@ == kw_withdrawal(),
{
    let v: Vec<u8> = vec![119u8, 105, 116, 104, 100, 114, 97, 119, 97, 108];
    proof {
        assert(v@ =~= kw_withdrawal());
    }
    v
}

fn keyword_dispute() -> (r: Vec<u8>)
    ensures
        r@ == kw_dispute(),
{
    let v: Vec<u8> = vec![100u8, 105, 115, 112, 117, 116, 101];
    proof {
        assert(v@ =~= kw_dispute());
    }
    v
}

fn keyword_resolve() -> (r: Vec<u8>)
    ensures
        r@ == kw_resolve(),
{
    let v: Vec<u8> = vec![114u8, 101, 115, 111, 108, 118, 101];
    proof {
        assert(v@ =~= kw_resolve());
    }
    v
}

fn keyword_chargeback() -> (r: Vec<u8>)
    ensures
        r@ == kw_chargeback(),
{
    let v: Vec<u8> = vec![99u8, 104, 97, 114, 103, 101, 98, 97, 99, 107];
    proof {
        assert(v@ =~= kw_chargeback());
    }
    v
}

/// Splits a byte string at every occurrence of the separator.
fn split_bytes(input: &[u8], delim: u8) -> (out: Vec<Vec<u8>>)
    ensures
        out@.len() == split_on(input@, delim).len(),
        forall|j: int| 0 <= j < out@.len() ==> #[trigger] out@[j]@ == split_on(input@, delim)[j],
{
    let mut done: Vec<Vec<u8>> = Vec::new();
    let mut cur: Vec<u8> = Vec::new();
    let n = input.len();
    let mut i: usize = 0;
    proof {
        assert(input@.take(0) =~= Seq::<u8>::empty());
        assert(split_on(Seq::<u8>::empty(), delim) =~= seq![Seq::<u8>::empty()]);
    }
    while i < n
        invariant
            n == input@.len(),
            i <= n,
            done@.len() + 1 == split_on(input@.take(i as int), delim).len(),
            forall|j: int|
                0 <= j < done@.len() ==> #[trigger] done@[j]@ == split_on(
                    input@.take(i as int),
                    delim,
                )[j],
            cur@ == split_on(input@.take(i as int), delim).last(),
        decreases n - i,
    {
        let ghost pre = input@.take(i as int);
        let b = input[i];
        proof {
            assert(input@.take(i + 1) =~= pre.push(b));
            lemma_split_on_snoc(pre, b, delim);
        }
        if b == delim {
            done.push(cur);
            cur = Vec::new();
        } else {
            cur.push(b);
        }
        i = i + 1;
    }
    proof {
        assert(input@.take(n as int) =~= input@);
    }
    done.push(cur);
    done
}

/// Copies a byte string without its leading and trailing blanks.
fn trim_slice(s: &[u8]) -> (out: Vec<u8>)
    ensures
        out@ == trim(s@),
{
    let n = s.len();
    let mut a: usize = 0;
    while a < n && blank(s[a])
        invariant
            n == s@.len(),
            a <= n,
            forall|j: int| 0 <= j < a ==> is_blank(#[trigger] s@[j]),
        decreases n - a,
    {
        a = a + 1;
    }
    let mut b: usize = n;
    while b > a && blank(s[b - 1])
        invariant
            n == s@.len(),
            a <= b <= n,
            forall|j: int| b <= j < n ==> is_blank(#[trigger] s@[j]),
        decreases b,
    {
        b = b - 1;
    }
    let mut out: Vec<u8> = Vec::new();
    let mut i: usize = a;
    while i < b
        invariant
            n == s@.len(),
            a <= i <= b <= n,
            out@ == s@.subrange(a as int, i as int),
        decreases b - i,
    {
        out.push(s[i]);
        proof {
            assert(out@ =~= s@.subrange(a as int, i + 1));
        }
        i = i + 1;
    }
    proof {
        lemma_trim_front_is_skip(s@, a as int);
        let body = s@.skip(a as int);
        assert(forall|j: int|
            (b - a) <= j < body.len() ==> is_blank(#[trigger] body[j]));
        if b > a {
            assert(!is_blank(body[b - a - 1]));
        }
        lemma_trim_back_is_take(body, b - a);
        assert(body.take(b - a) =~= s@.subrange(a as int, b as int));
    }
    out
}

/// Reads a non-empty all-digit field as an unsigned value of at most
/// `bound`.
fn parse_uint(s: &Vec<u8>, bound: u64) -> (r: Option<u64>)
    ensures
        match r {
            Some(v) => uint_rep(s@, bound as int) == Some(v as int),
            None => uint_rep(s@, bound as int) is None,
        },
{
    let n = s.len();
    if n == 0 {
        return None;
    }
    let mut acc: u64 = 0;
    let mut i: usize = 0;
    proof {
        assert(s@.take(0) =~= Seq::<u8>::empty());
    }
    while i < n
        invariant
            n == s@.len(),
            i <= n,
            forall|j: int| 0 <= j < i ==> is_digit(#[trigger] s@[j]),
            acc == digits_value(s@.take(i as int)),
            acc <= bound,
        decreases n - i,
    {
        let ghost pre = s@.take(i as int);
        let c = s[i];
        if c < 48 || c > 57 {
            proof {
                assert(!is_digit(s@[i as int]));
                assert(!all_digits(s@));
            }
            return None;
        }
        let d = (c - 48) as u64;
        proof {
            assert(s@.take(i + 1) =~= pre.push(c));
            assert(s@.take(i + 1).drop_last() =~= pre);
            assert(digits_value(s@.take(i + 1)) == acc * 10 + d);
        }
        let wide: u128 = (acc as u128) * 10 + (d as u128);
        if wide > bound as u128 {
            proof {
                if all_digits(s@) {
                    lemma_digits_value_monotone(s@, i + 1);
                }
            }
            return None;
        }
        acc = (wide as u64);
        i = i + 1;
    }
    proof {
        assert(s@.take(n as int) =~= s@);
        assert(all_digits(s@));
    }
    Some(acc)
}


/// Copies `s[from..to]` into a fresh vector.
fn copy_range(s: &Vec<u8>, from: usize, to: usize) -> (out: Vec<u8>)
    requires
        from <= to <= s@.len(),
    ensures
        out@ == s@.subrange(from as int, to as int),
{
    let mut out: Vec<u8> = Vec::new();
    let mut i: usize = from;
    while i < to
        invariant
            from <= i <= to <= s@.len(),
            out@ == s@.subrange(from as int, i as int),
        decreases to - i,
    {
        out.push(s[i]);
        proof {
            assert(out@ =~= s@.subrange(from as int, i + 1));
        }
        i = i + 1;
    }
    out
}

/// The small powers of ten, spelled out.
proof fn lemma_pow10_small()
    ensures
        pow10(0) == 1,
        pow10(1) == 10,
        pow10(2) == 100,
        pow10(3) == 1000,
        pow10(4) == 10000,
{
    assert(pow10(0) == 1);
    assert(pow10(1) == 10);
    assert(pow10(2) == 100);
    assert(pow10(3) == 1000);
    assert(pow10(4) == 10000);
}

/// Reads an amount field: an optional minus sign, integer digits, and
/// optionally a dot with one to four fraction digits; the value in minor
/// units with the sign flag.
fn parse_amount(f: &Vec<u8>) -> (r: Option<(bool, Money)>)
    ensures
        match r {
            Some((neg, m)) => amount_rep(f@) == Some((neg, m.units as int)),
            None => amount_rep(f@) is None,
        },
{
    let n = f.len();
    let neg = n > 0 && f[0] == 45;
    let start: usize = if neg {
        1
    } else {
        0
    };
    let ghost body = f@.skip(start as int);
    proof {
        if !neg {
            assert(f@.skip(0) =~= f@);
        }
    }
    let mut di: usize = start;
    while di < n && f[di] != 46
        invariant
            n == f@.len(),
            start <= di <= n,
            forall|j: int| start <= j < di ==> f@[j] != 46,
        decreases n - di,
    {
        di = di + 1;
    }
    proof {
        lemma_first_in(body, DOT);
        assert(forall|j: int| 0 <= j < body.len() ==> #[trigger] body[j] == f@[j + start]);
        if di < n {
            assert(body[di - start] == 46);
        }
        assert(first_in(body, DOT) == di - start) by {
            let d0 = first_in(body, DOT);
            if d0 < di - start {
                assert(body[d0] == 46);
                assert(f@[d0 + start] != 46);
            }
            if d0 > di - start {
                assert(di - start < body.len());
            }
        }
    }
    let ip = copy_range(f, start, di);
    proof {
        assert(ip@ =~= body.take(di - start));
    }
    if di == n {
        // no fraction part
        let ipv = match parse_uint(&ip, u64::MAX) {
            Some(v) => v,
            None => {
                return None;
            },
        };
        let wide: u128 = (ipv as u128) * 10000;
        if wide > u64::MAX as u128 {
            return None;
        }
        Some((neg, Money::from_units(wide as u64)))
    } else {
        let fp = copy_range(f, di + 1, n);
        proof {
            assert(fp@ =~= body.skip((di - start) + 1));
        }
        if fp.len() == 0 || fp.len() > 4 {
            proof {
                lemma_pow10_small();
                if fp@.len() == 0 {
                    assert(!all_digits(fp@));
                }
            }
            return None;
        }
        let ipv = match parse_uint(&ip, u64::MAX) {
            Some(v) => v,
            None => {
                proof {
                    if all_digits(ip@) {
                        // the integer part alone is already past the bound
                        assert(digits_value(ip@) > u64::MAX);
                        assert(digits_value(ip@) * 10000 >= digits_value(ip@)) by (nonlinear_arith)
                            requires
                                digits_value(ip@) >= 0,
                        ;
                        if all_digits(fp@) && fp@.len() <= 4 {
                            lemma_pow10_small();
                            lemma_digits_value_nonneg(fp@);
                            assert(pow10(4 - fp@.len()) >= 1);
                            assert(digits_value(fp@) * pow10(4 - fp@.len()) >= 0) by (
                            nonlinear_arith)
                                requires
                                    digits_value(fp@) >= 0,
                                    pow10(4 - fp@.len()) >= 1,
                            ;
                        }
                    }
                }
                return None;
            },
        };
        let fpv = match parse_uint(&fp, 9999) {
            Some(v) => v,
            None => {
                proof {
                    if all_digits(fp@) {
                        lemma_digits_value_bound(fp@);
                        lemma_pow10_small();
                        assert(digits_value(fp@) < pow10(fp@.len() as int));
                        assert(fp@.len() == 1 || fp@.len() == 2 || fp@.len() == 3 || fp@.len()
                            == 4);
                        assert(digits_value(fp@) <= 9999);
                    }
                }
                return None;
            },
        };
        let factor: u64 = if fp.len() == 1 {
            1000
        } else if fp.len() == 2 {
            100
        } else if fp.len() == 3 {
            10
        } else {
            1
        };
        proof {
            lemma_pow10_small();
            assert(factor == pow10(4 - fp@.len()));
        }
        let frac: u64 = fpv * factor;
        let wide: u128 = (ipv as u128) * 10000 + (frac as u128);
        if wide > u64::MAX as u128 {
            return None;
        }
        Some((neg, Money::from_units(wide as u64)))
    }
}

/// A fraction field of up to four digits is worth less than ten thousand.
proof fn lemma_digits_value_bound(s: Seq<u8>)
    requires
        forall|i: int| 0 <= i < s.len() ==> is_digit(#[trigger] s[i]),
    ensures
        digits_value(s) < pow10(s.len() as int),
    decreases s.len(),
{
    if s.len() == 0 {
    } else {
        lemma_digits_value_bound(s.drop_last());
        assert(digits_value(s) == digits_value(s.drop_last()) * 10 + (s.last() - 48));
        assert(pow10(s.len() as int) == 10 * pow10(s.len() - 1));
        assert(digits_value(s.drop_last()) * 10 <= (pow10(s.len() - 1) - 1) * 10) by (
        nonlinear_arith)
            requires
                digits_value(s.drop_last()) <= pow10(s.len() - 1) - 1,
        ;
    }
}


/// Reads one data row, given its four trimmed fields, into the transaction
/// or error its content calls for.
fn row_to_item(tyf: &Vec<u8>, clf: &Vec<u8>, txf: &Vec<u8>, amf: &Vec<u8>) -> (r: Result<
    Transaction,
    Error,
>)
    ensures
        item_matches_row(r, row_outcome(seq![tyf@, clf@, txf@, amf@])),
{
    let ghost fields = seq![tyf@, clf@, txf@, amf@];
    let client_num = parse_uint(clf, 65535);
    let tx_num = parse_uint(txf, 4294967295);
    let (c, x) = match (client_num, tx_num) {
        (Some(cv), Some(xv)) => ((cv as u16), (xv as u32)),
        _ => {
            return Err(
                Error::Csv { message: "malformed client or transaction id".to_owned() },
            );
        },
    };
    let kw_dep = keyword_deposit();
    let kw_wdr = keyword_withdrawal();
    let is_dep = bytes_eq(tyf, &kw_dep);
    let is_wdr = bytes_eq(tyf, &kw_wdr);
    if is_dep || is_wdr {
        if amf.len() == 0 {
            let message = if is_dep {
                "no amount provided for deposit".to_owned()
            } else {
                "no amount provided for withdrawal".to_owned()
            };
            return Err(validation_error(c, x, message));
        }
        let (neg, m) = match parse_amount(amf) {
            Some(p) => p,
            None => {
                return Err(Error::Csv { message: "malformed amount".to_owned() });
            },
        };
        if neg || m.is_zero() {
            let message = if is_dep {
                "the deposited amount must be positive".to_owned()
            } else {
                "the withdrawn amount must be positive".to_owned()
            };
            return Err(validation_error(c, x, message));
        }
        proof {
            assert(m == (Money { units: m.units }));
        }
        if is_dep {
            match Deposit::new(ClientId::new(c), TxId::new(x), m) {
                Ok(d) => Ok(Transaction::Deposit(d)),
                Err(_) => {
                    proof {
                        assert(false);
                    }
                    Err(Error::Csv { message: "malformed amount".to_owned() })
                },
            }
        } else {
            match Withdrawal::new(ClientId::new(c), TxId::new(x), m) {
                Ok(w) => Ok(Transaction::Withdrawal(w)),
                Err(_) => {
                    proof {
                        assert(false);
                    }
                    Err(Error::Csv { message: "malformed amount".to_owned() })
                },
            }
        }
    } else {
        let kw_dis = keyword_dispute();
        let kw_res = keyword_resolve();
        let kw_chb = keyword_chargeback();
        let is_dis = bytes_eq(tyf, &kw_dis);
        let is_res = bytes_eq(tyf, &kw_res);
        let is_chb = bytes_eq(tyf, &kw_chb);
        if is_dis || is_res || is_chb {
            if amf.len() != 0 {
                let message = if is_dis {
                    "an amount must not be provided with a dispute transaction".to_owned()
                } else if is_res {
                    "an amount must not be provided with a resolve transaction".to_owned()
                } else {
                    "an amount must not be provided with a chargeback transaction".to_owned()
                };
                return Err(validation_error(c, x, message));
            }
            if is_dis {
                Ok(Transaction::Dispute(Dispute::new(ClientId::new(c), TxId::new(x))))
            } else if is_res {
                Ok(Transaction::Resolve(Resolve::new(ClientId::new(c), TxId::new(x))))
            } else {
                Ok(Transaction::Chargeback(Chargeback::new(ClientId::new(c), TxId::new(x))))
            }
        } else {
            Err(validation_error(c, x, "unknown transaction type".to_owned()))
        }
    }
}

/// Parses the given input and returns the parse results, one per data row.
pub fn parse_transactions(input: &[u8]) -> (out: Vec<Result<Transaction, Error>>)
    ensures
        items_match(input@, out@),
{
    let nb = Ghost(|l: Seq<u8>| trim(l).len() != 0);
    let lines = split_bytes(input, 10);
    let ghost lsv = split_on(input@, NEWLINE);
    let ghost content = sel(lsv, nb@);
    let mut out: Vec<Result<Transaction, Error>> = Vec::new();
    let mut seen_header = false;
    let n = lines.len();
    let mut i: usize = 0;
    let ghost cnt: int = 0;
    proof {
        assert(lsv.take(0) =~= Seq::<Seq<u8>>::empty());
        assert(sel(lsv.take(0), nb@) =~= Seq::<Seq<u8>>::empty());
        assert(content.take(0) =~= Seq::<Seq<u8>>::empty());
    }
    while i < n
        invariant
            n == lines@.len(),
            i <= n,
            lsv == split_on(input@, NEWLINE),
            nb@ == (|l: Seq<u8>| trim(l).len() != 0),
            content == sel(lsv, nb@),
            lines@.len() == lsv.len(),
            forall|j: int| 0 <= j < lines@.len() ==> #[trigger] lines@[j]@ == lsv[j],
            0 <= cnt <= content.len(),
            sel(lsv.take(i as int), nb@) == content.take(cnt),
            seen_header <==> cnt >= 1,
            seen_header ==> header_ok(content[0]),
            !seen_header ==> out@.len() == 0,
            seen_header ==> out@.len() == cnt - 1,
            forall|j: int|
                0 <= j < out@.len() ==> item_matches_row(
                    #[trigger] out@[j],
                    row_outcome(fields_of(content[j + 1])),
                ),
        decreases n - i,
    {
        let line = &lines[i];
        let trimmed_line = trim_slice(line.as_slice());
        proof {
            assert(lsv.take(i + 1) =~= lsv.take(i as int).push(lsv[i as int]));
            lemma_sel_snoc(lsv.take(i as int), lsv[i as int], nb@);
        }
        if trimmed_line.len() == 0 {
            proof {
                assert(!nb@(lsv[i as int]));
                assert(sel(lsv.take(i + 1), nb@) =~= content.take(cnt));
            }
        } else {
            proof {
                assert(nb@(lsv[i as int]));
                assert(sel(lsv.take(i + 1), nb@) =~= content.take(cnt).push(lsv[i as int]));
                // the next selected line is this one
                assert(lsv =~= lsv.take(i + 1) + lsv.skip(i + 1));
                lemma_sel_concat(lsv.take(i + 1), lsv.skip(i + 1), nb@);
                assert(content == sel(lsv.take(i + 1), nb@) + sel(lsv.skip(i + 1), nb@));
                assert(content.take(cnt + 1) =~= content.take(cnt).push(lsv[i as int]));
                assert(content[cnt] == lsv[i as int]);
            }
            let raw_fields = split_bytes(line.as_slice(), 44);
            let mut fields: Vec<Vec<u8>> = Vec::new();
            let m = raw_fields.len();
            let mut k: usize = 0;
            while k < m
                invariant
                    m == raw_fields@.len(),
                    k <= m,
                    fields@.len() == k,
                    forall|j: int|
                        0 <= j < raw_fields@.len() ==> #[trigger] raw_fields@[j]@ == split_on(
                            lsv[i as int],
                            COMMA,
                        )[j],
                    lsv == split_on(input@, NEWLINE),
                    lines@.len() == lsv.len(),
                    forall|j: int| 0 <= j < lines@.len() ==> #[trigger] lines@[j]@ == lsv[j],
                    i < lines@.len(),
                    m == split_on(lsv[i as int], COMMA).len(),
                    forall|j: int|
                        0 <= j < k ==> #[trigger] fields@[j]@ == fields_of(lsv[i as int])[j],
                decreases m - k,
            {
                let tf = trim_slice(raw_fields[k].as_slice());
                fields.push(tf);
                proof {
                    assert(fields_of(lsv[i as int])[k as int] == trim(
                        split_on(lsv[i as int], COMMA)[k as int],
                    ));
                }
                k = k + 1;
            }
            proof {
                assert(fields_of(lsv[i as int]).len() == m);
                assert(fields@.map_values(|f: Vec<u8>| f@) =~= fields_of(lsv[i as int]));
            }
            if !seen_header {
                // this is the header line
                let ok = check_header(&fields);
                if ok {
                    seen_header = true;
                    proof {
                        cnt = cnt + 1;
                        assert(header_ok(content[0]));
                    }
                } else {
                    // a bad header is one malformed row, and nothing more is read
                    proof {
                        assert(!header_ok(content[0]));
                        assert(parsed_rows(input@) =~= seq![
                            RowOutcome::Malformed { message: "malformed header row"@ },
                        ]);
                    }
                    let mut bad: Vec<Result<Transaction, Error>> = Vec::new();
                    bad.push(Err(Error::Csv { message: "malformed header row".to_owned() }));
                    return bad;
                }
            } else {
                let item = if fields.len() != 4 {
                    Err(Error::Csv { message: "wrong number of fields".to_owned() })
                } else {
                    row_to_item(&fields[0], &fields[1], &fields[2], &fields[3])
                };
                proof {
                    if fields@.len() == 4 {
                        assert(fields_of(lsv[i as int]) =~= seq![
                            fields@[0]@,
                            fields@[1]@,
                            fields@[2]@,
                            fields@[3]@,
                        ]);
                    }
                    assert(item_matches_row(item, row_outcome(fields_of(content[cnt]))));
                }
                out.push(item);
                proof {
                    cnt = cnt + 1;
                }
            }
        }
        i = i + 1;
    }
    proof {
        assert(lsv.take(n as int) =~= lsv);
        assert(content.take(cnt) =~= content);
        assert(cnt == content.len());
        if cnt == 0 {
            assert(parsed_rows(input@) =~= Seq::<RowOutcome>::empty());
        } else {
            assert(parsed_rows(input@) =~= content.skip(1).map_values(
                |l: Seq<u8>| row_outcome(fields_of(l)),
            ));
            assert forall|j: int| 0 <= j < out@.len() implies item_matches_row(
                #[trigger] out@[j],
                parsed_rows(input@)[j],
            ) by {
                assert(content.skip(1)[j] == content[j + 1]);
            }
        }
    }
    out
}

/// Whether the four trimmed fields are the expected header cells.
fn check_header(fields: &Vec<Vec<u8>>) -> (r: bool)
    ensures
        r == (fields@.map_values(|f: Vec<u8>| f@) == header_cells()),
{
    let ghost views = fields@.map_values(|f: Vec<u8>| f@);
    if fields.len() != 4 {
        proof {
            assert(views.len() == fields@.len());
            assert(views != header_cells());
        }
        return false;
    }
    let c0: Vec<u8> = vec![116u8, 121, 112, 101];
    let c1: Vec<u8> = vec![99u8, 108, 105, 101, 110, 116];
    let c2: Vec<u8> = vec![116u8, 120];
    let c3: Vec<u8> = vec![97u8, 109, 111, 117, 110, 116];
    proof {
        assert(c0@ =~= header_cells()[0]);
        assert(c1@ =~= header_cells()[1]);
        assert(c2@ =~= header_cells()[2]);
        assert(c3@ =~= header_cells()[3]);
    }
    let ok = bytes_eq(&fields[0], &c0) && bytes_eq(&fields[1], &c1) && bytes_eq(&fields[2], &c2)
        && bytes_eq(&fields[3], &c3);
    proof {
        assert(views.len() == 4);
        assert(views[0] == fields@[0]@ && views[1] == fields@[1]@ && views[2] == fields@[2]@
            && views[3] == fields@[3]@);
        if ok {
            assert(views =~= header_cells());
        } else {
            assert(views != header_cells());
        }
    }
    ok
}

} // verus!
