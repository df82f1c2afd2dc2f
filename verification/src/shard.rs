//! The sharded engine: the stream is partitioned across a fixed number of
//! lanes by `client id mod lanes`, each lane folds its own sub-stream with
//! the same dispatch as the sequential engine, and the disjoint per-lane
//! account maps are merged at the end.
//!
//! The heart of this module is [`lemma_run_projection`]: what a fold does to
//! the accounts of a set of clients is decided by that set's own
//! transactions alone. Lane isolation, the equality of the sequential and
//! sharded engines, and the per-client agreement of their reports are all
//! instances of it.

use vstd::prelude::*;
use crate::account::AccountV;
use crate::domain::Transaction;
use crate::engine::{tx_allowed, step_map, run_from, success_records, lemma_run_from_snoc,
    lemma_success_records_snoc, Accounts, EngineRun, handle_transaction, oks, parse_errors,
    lemma_oks_snoc, lemma_parse_errors_snoc, rejection_message};
use crate::error::Error;
use crate::output::{TransactionRecord, record_of};

verus! {

/// The elements of a sequence satisfying `pred`, in order.
pub open spec fn sel<A>(s: Seq<A>, pred: spec_fn(A) -> bool) -> Seq<A>
    decreases s.len(),
{
    if s.len() == 0 {
        Seq::empty()
    } else {
        (if pred(s[0]) {
            seq![s[0]]
        } else {
            Seq::empty()
        }) + sel(s.skip(1), pred)
    }
}

/// Selection distributes over concatenation.
pub proof fn lemma_sel_concat<A>(a: Seq<A>, b: Seq<A>, pred: spec_fn(A) -> bool)
    ensures
        sel(a + b, pred) == sel(a, pred) + sel(b, pred),
    decreases a.len(),
{
    if a.len() == 0 {
        assert(a + b =~= b);
        assert(sel(a, pred) =~= Seq::<A>::empty());
        assert(sel(a, pred) + sel(b, pred) =~= sel(b, pred));
    } else {
        assert((a + b)[0] == a[0]);
        assert((a + b).skip(1) =~= a.skip(1) + b);
        lemma_sel_concat(a.skip(1), b, pred);
        assert(sel(a + b, pred) =~= sel(a, pred) + sel(b, pred));
    }
}

/// Appending an element appends it to the selection when it qualifies.
pub proof fn lemma_sel_snoc<A>(s: Seq<A>, x: A, pred: spec_fn(A) -> bool)
    ensures
        sel(s.push(x), pred) == sel(s, pred) + (if pred(x) {
            seq![x]
        } else {
            Seq::<A>::empty()
        }),
{
    assert(s.push(x) =~= s + seq![x]);
    lemma_sel_concat(s, seq![x], pred);
    lemma_sel_single(x, pred);
}

/// Selecting from a one-element sequence.
pub proof fn lemma_sel_single<A>(x: A, pred: spec_fn(A) -> bool)
    ensures
        sel(seq![x], pred) == if pred(x) {
            seq![x]
        } else {
            Seq::<A>::empty()
        },
{
    assert(seq![x].skip(1) =~= Seq::<A>::empty());
    assert(sel(seq![x].skip(1), pred) =~= Seq::<A>::empty());
    if pred(x) {
        assert(sel(seq![x], pred) =~= seq![x]);
    } else {
        assert(sel(seq![x], pred) =~= Seq::<A>::empty());
    }
}

/// Selecting twice selects by the conjunction.
pub proof fn lemma_sel_sel<A>(s: Seq<A>, p: spec_fn(A) -> bool, q: spec_fn(A) -> bool)
    ensures
        sel(sel(s, p), q) == sel(s, |x: A| p(x) && q(x)),
    decreases s.len(),
{
    let both = |x: A| p(x) && q(x);
    if s.len() == 0 {
        assert(sel(sel(s, p), q) =~= sel(s, both));
    } else {
        let head: Seq<A> = if p(s[0]) {
            seq![s[0]]
        } else {
            Seq::empty()
        };
        lemma_sel_concat(head, sel(s.skip(1), p), q);
        lemma_sel_sel(s.skip(1), p, q);
        if p(s[0]) {
            lemma_sel_single(s[0], q);
        }
        assert(sel(head, q) =~= if both(s[0]) {
            seq![s[0]]
        } else {
            Seq::<A>::empty()
        });
        assert(sel(sel(s, p), q) =~= sel(s, both));
    }
}

/// The client a success record belongs to.
pub open spec fn record_client(r: TransactionRecord) -> u16 {
    match r {
        TransactionRecord::Deposit { client, .. } => client,
        TransactionRecord::Withdrawal { client, .. } => client,
        TransactionRecord::Dispute { client, .. } => client,
        TransactionRecord::Resolve { client, .. } => client,
        TransactionRecord::Chargeback { client, .. } => client,
    }
}

/// The transactions of a stream that the fold starting at `m` rejects, in
/// order.
pub open spec fn rejected_txs(m: Map<u16, AccountV>, txs: Seq<Transaction>) -> Seq<Transaction>
    decreases txs.len(),
{
    if txs.len() == 0 {
        Seq::empty()
    } else {
        (if tx_allowed(m, txs[0]) {
            Seq::empty()
        } else {
            seq![txs[0]]
        }) + rejected_txs(step_map(m, txs[0]), txs.skip(1))
    }
}

/// Whether an appended transaction is rejected is decided by the fold of the
/// stream before it.
pub proof fn lemma_rejected_txs_snoc(m: Map<u16, AccountV>, txs: Seq<Transaction>, t: Transaction)
    ensures
        rejected_txs(m, txs.push(t)) == rejected_txs(m, txs) + (if tx_allowed(
            run_from(m, txs),
            t,
        ) {
            Seq::<Transaction>::empty()
        } else {
            seq![t]
        }),
    decreases txs.len(),
{
    let e = txs.push(t);
    let x: Seq<Transaction> = if tx_allowed(run_from(m, txs), t) {
        Seq::empty()
    } else {
        seq![t]
    };
    assert(e[0] == if txs.len() == 0 { t } else { txs[0] });
    if txs.len() == 0 {
        assert(e.skip(1) =~= Seq::<Transaction>::empty());
        assert(rejected_txs(m, txs) =~= Seq::<Transaction>::empty());
        assert(run_from(m, txs) == m);
        assert(rejected_txs(step_map(m, t), e.skip(1)) =~= Seq::<Transaction>::empty());
        assert(rejected_txs(m, e) =~= rejected_txs(m, txs) + x);
    } else {
        let m1 = step_map(m, txs[0]);
        let head: Seq<Transaction> = if tx_allowed(m, txs[0]) {
            Seq::empty()
        } else {
            seq![txs[0]]
        };
        assert(e.skip(1) =~= txs.skip(1).push(t));
        lemma_rejected_txs_snoc(m1, txs.skip(1), t);
        assert(run_from(m, txs) == run_from(m1, txs.skip(1)));
        assert(rejected_txs(m, e) == head + rejected_txs(m1, e.skip(1)));
        assert(rejected_txs(m, txs) == head + rejected_txs(m1, txs.skip(1)));
        assert(head + (rejected_txs(m1, txs.skip(1)) + x) =~= (head + rejected_txs(
            m1,
            txs.skip(1),
        )) + x);
    }
}

/// The exact descriptions of a fold's rejections, aligned with
/// [`rejected_txs`]: the `j`-th description belongs to the `j`-th rejected
/// transaction.
pub open spec fn rejection_messages(m: Map<u16, AccountV>, txs: Seq<Transaction>) -> Seq<
    Seq<char>,
>
    decreases txs.len(),
{
    if txs.len() == 0 {
        Seq::empty()
    } else {
        (if tx_allowed(m, txs[0]) {
            Seq::empty()
        } else {
            seq![rejection_message(m, txs[0])]
        }) + rejection_messages(step_map(m, txs[0]), txs.skip(1))
    }
}

/// The description of an appended rejection is decided by the fold of the
/// stream before it.
pub proof fn lemma_rejection_messages_snoc(
    m: Map<u16, AccountV>,
    txs: Seq<Transaction>,
    t: Transaction,
)
    ensures
        rejection_messages(m, txs.push(t)) == rejection_messages(m, txs) + (if tx_allowed(
            run_from(m, txs),
            t,
        ) {
            Seq::<Seq<char>>::empty()
        } else {
            seq![rejection_message(run_from(m, txs), t)]
        }),
    decreases txs.len(),
{
    let e = txs.push(t);
    let x: Seq<Seq<char>> = if tx_allowed(run_from(m, txs), t) {
        Seq::empty()
    } else {
        seq![rejection_message(run_from(m, txs), t)]
    };
    assert(e[0] == if txs.len() == 0 { t } else { txs[0] });
    if txs.len() == 0 {
        assert(e.skip(1) =~= Seq::<Transaction>::empty());
        assert(rejection_messages(m, txs) =~= Seq::<Seq<char>>::empty());
        assert(run_from(m, txs) == m);
        assert(rejection_messages(step_map(m, t), e.skip(1)) =~= Seq::<Seq<char>>::empty());
        assert(rejection_messages(m, e) =~= rejection_messages(m, txs) + x);
    } else {
        let m1 = step_map(m, txs[0]);
        let head: Seq<Seq<char>> = if tx_allowed(m, txs[0]) {
            Seq::empty()
        } else {
            seq![rejection_message(m, txs[0])]
        };
        assert(e.skip(1) =~= txs.skip(1).push(t));
        lemma_rejection_messages_snoc(m1, txs.skip(1), t);
        assert(run_from(m, txs) == run_from(m1, txs.skip(1)));
        assert(rejection_messages(m, e) == head + rejection_messages(m1, e.skip(1)));
        assert(rejection_messages(m, txs) == head + rejection_messages(m1, txs.skip(1)));
        assert(head + (rejection_messages(m1, txs.skip(1)) + x) =~= (head + rejection_messages(
            m1,
            txs.skip(1),
        )) + x);
    }
}

/// Whether two account maps agree about one client: the client's account
/// exists in both or in neither, and with the same state.
pub open spec fn agree_at(m1: Map<u16, AccountV>, m2: Map<u16, AccountV>, c: u16) -> bool {
    &&& m1.contains_key(c) == m2.contains_key(c)
    &&& (m1.contains_key(c) ==> m1[c] == m2[c])
}

/// Whether two account maps agree about every client satisfying `pred`.
pub open spec fn agree_on(
    m1: Map<u16, AccountV>,
    m2: Map<u16, AccountV>,
    pred: spec_fn(u16) -> bool,
) -> bool {
    forall|c: u16| pred(c) ==> agree_at(m1, m2, c)
}

/// One step touches no account but its own client's.
pub proof fn lemma_step_other_client(m: Map<u16, AccountV>, t: Transaction, c: u16)
    requires
        t.spec_client() != c,
    ensures
        agree_at(step_map(m, t), m, c),
{
}

/// One step reads and writes only its own client's account: maps agreeing
/// about that client accept the transaction alike and keep agreeing.
pub proof fn lemma_step_local(m1: Map<u16, AccountV>, m2: Map<u16, AccountV>, t: Transaction)
    requires
        agree_at(m1, m2, t.spec_client()),
    ensures
        tx_allowed(m1, t) == tx_allowed(m2, t),
        agree_at(step_map(m1, t), step_map(m2, t), t.spec_client()),
{
}

/// The projection law: for any set of clients, given by `pred`, the fold of
/// a stream treats their accounts exactly as the fold of their own
/// transactions alone does — it ends in agreement about those accounts,
/// accepts the same of their transactions with the same echoes, and rejects
/// the same of their transactions.
pub proof fn lemma_run_projection(
    m1: Map<u16, AccountV>,
    m2: Map<u16, AccountV>,
    txs: Seq<Transaction>,
    pred: spec_fn(u16) -> bool,
)
    requires
        agree_on(m1, m2, pred),
    ensures
        agree_on(
            run_from(m1, txs),
            run_from(m2, sel(txs, |t: Transaction| pred(t.spec_client()))),
            pred,
        ),
        sel(success_records(m1, txs), |r: TransactionRecord| pred(record_client(r)))
            == success_records(m2, sel(txs, |t: Transaction| pred(t.spec_client()))),
        sel(rejected_txs(m1, txs), |t: Transaction| pred(t.spec_client())) == rejected_txs(
            m2,
            sel(txs, |t: Transaction| pred(t.spec_client())),
        ),
    decreases txs.len(),
{
    let tp = |t: Transaction| pred(t.spec_client());
    let rp = |r: TransactionRecord| pred(record_client(r));
    if txs.len() == 0 {
        assert(sel(txs, tp) =~= Seq::<Transaction>::empty());
        assert(success_records(m1, txs) =~= Seq::<TransactionRecord>::empty());
        assert(sel(success_records(m1, txs), rp) =~= Seq::<TransactionRecord>::empty());
        assert(success_records(m2, sel(txs, tp)) =~= Seq::<TransactionRecord>::empty());
        assert(rejected_txs(m1, txs) =~= Seq::<Transaction>::empty());
        assert(sel(rejected_txs(m1, txs), tp) =~= Seq::<Transaction>::empty());
        assert(rejected_txs(m2, sel(txs, tp)) =~= Seq::<Transaction>::empty());
    } else {
        let init = txs.drop_last();
        let t = txs.last();
        assert(txs =~= init.push(t));
        lemma_run_projection(m1, m2, init, pred);
        lemma_sel_snoc(init, t, tp);
        lemma_run_from_snoc(m1, init, t);
        lemma_success_records_snoc(m1, init, t);
        lemma_rejected_txs_snoc(m1, init, t);
        let r1 = run_from(m1, init);
        let r2 = run_from(m2, sel(init, tp));
        // what the appended transaction adds on the unrestricted side
        let s1x: Seq<TransactionRecord> = if tx_allowed(r1, t) {
            seq![record_of(t)]
        } else {
            Seq::empty()
        };
        let r1x: Seq<Transaction> = if tx_allowed(r1, t) {
            Seq::empty()
        } else {
            seq![t]
        };
        lemma_sel_concat(success_records(m1, init), s1x, rp);
        lemma_sel_concat(rejected_txs(m1, init), r1x, tp);
        assert(record_client(record_of(t)) == t.spec_client());
        if tp(t) {
            assert(sel(txs, tp) == sel(init, tp).push(t)) by {
                assert(sel(init, tp) + seq![t] =~= sel(init, tp).push(t));
            }
            lemma_run_from_snoc(m2, sel(init, tp), t);
            lemma_success_records_snoc(m2, sel(init, tp), t);
            lemma_rejected_txs_snoc(m2, sel(init, tp), t);
            lemma_step_local(r1, r2, t);
            assert forall|c: u16| pred(c) implies agree_at(
                step_map(r1, t),
                step_map(r2, t),
                c,
            ) by {
                assert(agree_at(r1, r2, c));
                if c != t.spec_client() {
                    lemma_step_other_client(r1, t, c);
                    lemma_step_other_client(r2, t, c);
                }
            }
            // the additions agree, so the selections stay equal
            if tx_allowed(r1, t) {
                lemma_sel_single(record_of(t), rp);
            } else {
                lemma_sel_single(t, tp);
            }
            assert(sel(s1x, rp) =~= s1x);
            assert(sel(r1x, tp) =~= r1x);
            assert(sel(success_records(m1, txs), rp) =~= success_records(m2, sel(txs, tp)));
            assert(sel(rejected_txs(m1, txs), tp) =~= rejected_txs(m2, sel(txs, tp)));
        } else {
            assert(sel(txs, tp) == sel(init, tp)) by {
                assert(sel(init, tp) + Seq::<Transaction>::empty() =~= sel(init, tp));
            }
            assert forall|c: u16| pred(c) implies agree_at(step_map(r1, t), r2, c) by {
                assert(agree_at(r1, r2, c));
                assert(c != t.spec_client());
                lemma_step_other_client(r1, t, c);
            }
            // the appended transaction belongs to no selected client
            if tx_allowed(r1, t) {
                lemma_sel_single(record_of(t), rp);
            } else {
                lemma_sel_single(t, tp);
            }
            assert(sel(s1x, rp) =~= Seq::<TransactionRecord>::empty());
            assert(sel(r1x, tp) =~= Seq::<Transaction>::empty());
            assert(sel(success_records(m1, txs), rp) =~= success_records(m2, sel(txs, tp)));
            assert(sel(rejected_txs(m1, txs), tp) =~= rejected_txs(m2, sel(txs, tp)));
        }
    }
}


/// Selection only looks at the predicate on the sequence's elements.
pub proof fn lemma_sel_congruence<A>(s: Seq<A>, p: spec_fn(A) -> bool, q: spec_fn(A) -> bool)
    requires
        forall|i: int| 0 <= i < s.len() ==> p(#[trigger] s[i]) == q(s[i]),
    ensures
        sel(s, p) == sel(s, q),
    decreases s.len(),
{
    if s.len() > 0 {
        lemma_sel_congruence(s.skip(1), p, q);
        assert(forall|i: int| 0 <= i < s.skip(1).len() ==> #[trigger] s.skip(1)[i] == s[i + 1]);
        assert(sel(s, p) =~= sel(s, q));
    }
}

/// Every selected element satisfies the predicate.
pub proof fn lemma_sel_elements<A>(s: Seq<A>, pred: spec_fn(A) -> bool)
    ensures
        forall|i: int| 0 <= i < sel(s, pred).len() ==> pred(#[trigger] sel(s, pred)[i]),
    decreases s.len(),
{
    if s.len() > 0 {
        lemma_sel_elements(s.skip(1), pred);
        let head: Seq<A> = if pred(s[0]) {
            seq![s[0]]
        } else {
            Seq::empty()
        };
        let rest = sel(s.skip(1), pred);
        assert forall|i: int| 0 <= i < sel(s, pred).len() implies pred(sel(s, pred)[i]) by {
            assert(sel(s, pred) == head + rest);
            if i < head.len() {
                assert(sel(s, pred)[i] == s[0]);
            } else {
                assert(sel(s, pred)[i] == rest[i - head.len()]);
            }
        }
    }
}

/// Nothing is selected when no element qualifies.
pub proof fn lemma_sel_none<A>(s: Seq<A>, pred: spec_fn(A) -> bool)
    requires
        forall|i: int| 0 <= i < s.len() ==> !pred(#[trigger] s[i]),
    ensures
        sel(s, pred) == Seq::<A>::empty(),
    decreases s.len(),
{
    if s.len() > 0 {
        assert(forall|i: int| 0 <= i < s.skip(1).len() ==> #[trigger] s.skip(1)[i] == s[i + 1]);
        lemma_sel_none(s.skip(1), pred);
        assert(sel(s, pred) =~= Seq::<A>::empty());
    }
}

/// The transactions a lane is responsible for: those whose client id falls
/// on the lane by `client mod w`.
pub open spec fn lane_txs(txs: Seq<Transaction>, w: int, l: int) -> Seq<Transaction> {
    sel(txs, |t: Transaction| (t.spec_client() as int) % w == l)
}

/// A lane's account map covers only the lane's own clients.
pub proof fn lemma_lane_dom(txs: Seq<Transaction>, w: int, l: int, c: u16)
    requires
        w >= 1,
        (c as int) % w != l,
    ensures
        !run_from(Map::empty(), lane_txs(txs, w, l)).contains_key(c),
{
    let lp = |t: Transaction| (t.spec_client() as int) % w == l;
    let cp = |cc: u16| cc == c;
    let tcp = |t: Transaction| cp(t.spec_client());
    lemma_run_projection(Map::empty(), Map::empty(), lane_txs(txs, w, l), cp);
    lemma_sel_elements(txs, lp);
    lemma_sel_none(lane_txs(txs, w, l), tcp);
    assert(run_from(Map::empty(), sel(lane_txs(txs, w, l), tcp))
        == Map::<u16, AccountV>::empty());
    assert(agree_at(
        run_from(Map::empty(), lane_txs(txs, w, l)),
        Map::<u16, AccountV>::empty(),
        c,
    ));
}

/// Law: sharding is equivalent to sequential processing, client by client.
/// For any stream, any number of lanes and any client: the lane responsible
/// for the client ends with exactly the account the sequential fold of the
/// whole stream produces (or no account, just as the sequential fold),
/// echoes exactly the client's sequentially accepted transactions in order,
/// and rejects exactly the client's sequentially rejected transactions in
/// order.
pub proof fn lemma_sharding_equivalence(txs: Seq<Transaction>, w: int, c: u16)
    requires
        w >= 1,
    ensures
        agree_at(
            run_from(Map::empty(), lane_txs(txs, w, (c as int) % w)),
            run_from(Map::empty(), txs),
            c,
        ),
        sel(
            success_records(Map::empty(), lane_txs(txs, w, (c as int) % w)),
            |r: TransactionRecord| record_client(r) == c,
        ) == sel(success_records(Map::empty(), txs), |r: TransactionRecord| record_client(r) == c),
        sel(
            rejected_txs(Map::empty(), lane_txs(txs, w, (c as int) % w)),
            |t: Transaction| t.spec_client() == c,
        ) == sel(rejected_txs(Map::empty(), txs), |t: Transaction| t.spec_client() == c),
{
    let l = (c as int) % w;
    let lp = |t: Transaction| (t.spec_client() as int) % w == l;
    let cp = |cc: u16| cc == c;
    let tcp = |t: Transaction| cp(t.spec_client());
    let rcp = |r: TransactionRecord| cp(record_client(r));
    let lane = lane_txs(txs, w, l);
    lemma_run_projection(Map::empty(), Map::empty(), txs, cp);
    lemma_run_projection(Map::empty(), Map::empty(), lane, cp);
    assert(cp(c));
    assert(agree_at(
        run_from(Map::empty(), txs),
        run_from(Map::empty(), sel(txs, tcp)),
        c,
    ));
    assert(agree_at(
        run_from(Map::empty(), lane),
        run_from(Map::empty(), sel(lane, tcp)),
        c,
    ));
    // the client's own transactions are the same in the lane and the stream
    lemma_sel_sel(txs, lp, tcp);
    lemma_sel_congruence(txs, |t: Transaction| lp(t) && tcp(t), tcp);
    assert(sel(lane, tcp) == sel(txs, tcp));
    // the law's plainly-phrased selections are the projection's selections
    lemma_sel_congruence(
        success_records(Map::empty(), lane),
        |r: TransactionRecord| record_client(r) == c,
        rcp,
    );
    lemma_sel_congruence(
        success_records(Map::empty(), txs),
        |r: TransactionRecord| record_client(r) == c,
        rcp,
    );
    lemma_sel_congruence(rejected_txs(Map::empty(), lane), |t: Transaction| t.spec_client() == c, tcp);
    lemma_sel_congruence(rejected_txs(Map::empty(), txs), |t: Transaction| t.spec_client() == c, tcp);
}


/// The echoes of all lanes before `upto`, lane by lane.
pub open spec fn lanes_successes(txs: Seq<Transaction>, w: int, upto: int) -> Seq<
    TransactionRecord,
>
    decreases upto,
{
    if upto <= 0 {
        Seq::empty()
    } else {
        lanes_successes(txs, w, upto - 1) + success_records(
            Map::empty(),
            lane_txs(txs, w, upto - 1),
        )
    }
}

/// The rejections of all lanes before `upto`, lane by lane.
pub open spec fn lanes_rejections(txs: Seq<Transaction>, w: int, upto: int) -> Seq<Transaction>
    decreases upto,
{
    if upto <= 0 {
        Seq::empty()
    } else {
        lanes_rejections(txs, w, upto - 1) + rejected_txs(Map::empty(), lane_txs(txs, w, upto - 1))
    }
}

/// The rejection descriptions of all lanes before `upto`, lane by lane,
/// aligned with [`lanes_rejections`].
pub open spec fn lanes_rejection_messages(txs: Seq<Transaction>, w: int, upto: int) -> Seq<
    Seq<char>,
>
    decreases upto,
{
    if upto <= 0 {
        Seq::empty()
    } else {
        lanes_rejection_messages(txs, w, upto - 1) + rejection_messages(
            Map::empty(),
            lane_txs(txs, w, upto - 1),
        )
    }
}

/// The number of lanes actually used: a requested count of zero is
/// normalized to one.
pub open spec fn effective_lanes(num_workers: usize) -> int {
    if num_workers == 0 {
        1int
    } else {
        num_workers as int
    }
}

/// Whether a sharded engine run reports exactly what the stream of parse
/// results calls for: the final accounts are the sequential fold of the
/// stream's transactions — lane partitioning is invisible in them — the
/// accepted transactions are echoed lane by lane, and the error report
/// lists first the forwarded parse errors in arrival order and then the
/// rejections lane by lane.
pub open spec fn sharded_run_reports(
    items: Seq<Result<Transaction, Error>>,
    w: int,
    run: EngineRun,
) -> bool {
    let txs = oks(items);
    let perrs = parse_errors(items);
    let rejs = lanes_rejections(txs, w, w);
    let rej_msgs = lanes_rejection_messages(txs, w, w);
    &&& run.accounts.inv()
    &&& run.accounts.accounts() == run_from(Map::empty(), txs)
    &&& run.successes@ == lanes_successes(txs, w, w)
    &&& run.errors@.len() == perrs.len() + rejs.len()
    &&& rej_msgs.len() == rejs.len()
    &&& (forall|i: int| 0 <= i < perrs.len() ==> #[trigger] run.errors@[i] == perrs[i])
    &&& (forall|j: int|
        0 <= j < rejs.len() ==> (#[trigger] run.errors@[perrs.len() + j]) is Processing
            && run.errors@[perrs.len() + j]->Processing_client_id == rejs[j].spec_client()
            && run.errors@[perrs.len() + j]->Processing_tx_id == rejs[j].spec_tx()
            && run.errors@[perrs.len() + j]->Processing_message@ == rej_msgs[j])
}

/// One lane's work: folds the lane's transactions with the same dispatch as
/// the sequential engine, into the lane's own private account map.
fn run_lane(txs: &Vec<Transaction>) -> (run: EngineRun)
    ensures
        run.accounts.inv(),
        run.accounts.accounts() == run_from(Map::empty(), txs@),
        run.successes@ == success_records(Map::empty(), txs@),
        run.errors@.len() == rejected_txs(Map::empty(), txs@).len(),
        run.errors@.len() == rejection_messages(Map::empty(), txs@).len(),
        forall|j: int|
            0 <= j < run.errors@.len() ==> (#[trigger] run.errors@[j]) is Processing
                && run.errors@[j]->Processing_client_id == rejected_txs(
                Map::empty(),
                txs@,
            )[j].spec_client() && run.errors@[j]->Processing_tx_id == rejected_txs(
                Map::empty(),
                txs@,
            )[j].spec_tx() && run.errors@[j]->Processing_message@ == rejection_messages(
                Map::empty(),
                txs@,
            )[j],
{
    let mut accounts = Accounts::new();
    let mut successes: Vec<TransactionRecord> = Vec::new();
    let mut errors: Vec<Error> = Vec::new();
    let n = txs.len();
    let mut i: usize = 0;
    while i < n
        invariant
            n == txs@.len(),
            i <= n,
            accounts.inv(),
            accounts.accounts() == run_from(Map::empty(), txs@.take(i as int)),
            successes@ == success_records(Map::empty(), txs@.take(i as int)),
            errors@.len() == rejected_txs(Map::empty(), txs@.take(i as int)).len(),
            errors@.len() == rejection_messages(Map::empty(), txs@.take(i as int)).len(),
            forall|j: int|
                0 <= j < errors@.len() ==> (#[trigger] errors@[j]) is Processing
                    && errors@[j]->Processing_client_id == rejected_txs(
                    Map::empty(),
                    txs@.take(i as int),
                )[j].spec_client() && errors@[j]->Processing_tx_id == rejected_txs(
                    Map::empty(),
                    txs@.take(i as int),
                )[j].spec_tx() && errors@[j]->Processing_message@ == rejection_messages(
                    Map::empty(),
                    txs@.take(i as int),
                )[j],
        decreases n - i,
    {
        let ghost done = txs@.take(i as int);
        let t = txs[i];
        proof {
            assert(txs@.take(i + 1) =~= done.push(t));
            lemma_run_from_snoc(Map::empty(), done, t);
            lemma_success_records_snoc(Map::empty(), done, t);
            lemma_rejected_txs_snoc(Map::empty(), done, t);
            lemma_rejection_messages_snoc(Map::empty(), done, t);
        }
        let res = handle_transaction(&t, &mut accounts);
        match res {
            Ok(()) => {
                successes.push(TransactionRecord::from_domain(&t));
                proof {
                    assert(success_records(Map::empty(), done.push(t)) =~= success_records(
                        Map::empty(),
                        done,
                    ).push(record_of(t)));
                    assert(rejected_txs(Map::empty(), done.push(t)) =~= rejected_txs(
                        Map::empty(),
                        done,
                    ));
                    assert(rejection_messages(Map::empty(), done.push(t)) =~= rejection_messages(
                        Map::empty(),
                        done,
                    ));
                }
            },
            Err(e) => {
                errors.push(e);
                proof {
                    assert(rejected_txs(Map::empty(), done.push(t)) =~= rejected_txs(
                        Map::empty(),
                        done,
                    ).push(t));
                    assert(rejection_messages(Map::empty(), done.push(t)) =~= rejection_messages(
                        Map::empty(),
                        done,
                    ).push(rejection_message(run_from(Map::empty(), done), t)));
                    assert(success_records(Map::empty(), done.push(t)) =~= success_records(
                        Map::empty(),
                        done,
                    ));
                }
            },
        }
        i = i + 1;
    }
    proof {
        assert(txs@.take(n as int) =~= txs@);
    }
    EngineRun { accounts, successes, errors }
}

/// Processes a stream of parse results and outputs the final state of the
/// client accounts, once the stream is exhausted, sharding the transactions
/// between `num_workers` lanes by client id (a count of zero is normalized
/// to one). Each lane owns a private account map and folds its own clients'
/// transactions in arrival order, fully independent of the other lanes, and
/// the disjoint lane maps are merged at the end — the final accounts are
/// identical with the sequential engine's. Parse errors are forwarded to
/// the error report as they arrive; each lane's echoes and rejections are
/// collected lane by lane.
pub fn process_transactions_parallel(
    transactions: Vec<Result<Transaction, Error>>,
    num_workers: usize,
) -> (run: EngineRun)
    ensures
        sharded_run_reports(transactions@, effective_lanes(num_workers), run),
{
    let w: usize = if num_workers == 0 {
        1
    } else {
        num_workers
    };
    let ghost items = transactions@;
    let ghost wi = w as int;

    // split the stream: parse errors to the report, transactions kept in
    // arrival order
    let mut src = transactions;
    let mut rev: Vec<Result<Transaction, Error>> = Vec::new();
    while src.len() > 0
        invariant
            rev@.len() + src@.len() == items.len(),
            src@ == items.take(src@.len() as int),
            forall|j: int| 0 <= j < rev@.len() ==> rev@[j] == items[items.len() - 1 - j],
        decreases src@.len(),
    {
        match src.pop() {
            Some(item) => {
                rev.push(item);
                proof {
                    assert(src@ =~= items.take(src@.len() as int));
                }
            },
            None => {
                proof {
                    assert(false);
                }
            },
        }
    }
    let mut all_txs: Vec<Transaction> = Vec::new();
    let mut errors: Vec<Error> = Vec::new();
    while rev.len() > 0
        invariant
            rev@.len() <= items.len(),
            forall|j: int| 0 <= j < rev@.len() ==> rev@[j] == items[items.len() - 1 - j],
            all_txs@ == oks(items.take(items.len() - rev@.len())),
            errors@ == parse_errors(items.take(items.len() - rev@.len())),
        decreases rev@.len(),
    {
        let ghost processed = items.take(items.len() - rev@.len());
        match rev.pop() {
            Some(item) => {
                let ghost gi = item;
                proof {
                    assert(gi == items[processed.len() as int]);
                    assert(processed.push(gi) =~= items.take(items.len() - rev@.len()));
                    lemma_oks_snoc(processed, gi);
                    lemma_parse_errors_snoc(processed, gi);
                }
                match item {
                    Ok(t) => {
                        all_txs.push(t);
                        proof {
                            assert(oks(processed).push(t) =~= oks(processed) + seq![t]);
                            assert(parse_errors(processed.push(gi)) =~= parse_errors(processed));
                        }
                    },
                    Err(e) => {
                        errors.push(e);
                        proof {
                            assert(parse_errors(processed).push(gi->Err_0) =~= parse_errors(
                                processed,
                            ) + seq![gi->Err_0]);
                            assert(oks(processed.push(gi)) =~= oks(processed));
                        }
                    },
                }
            },
            None => {
                proof {
                    assert(false);
                }
            },
        }
    }
    proof {
        assert(items.take(items.len() as int) =~= items);
    }
    let ghost txs = oks(items);
    let ghost perrs = parse_errors(items);

    // fold each lane over its own clients' transactions and merge the
    // disjoint lane maps
    let mut accounts = Accounts::new();
    let mut successes: Vec<TransactionRecord> = Vec::new();
    let mut l: usize = 0;
    while l < w
        invariant
            w >= 1,
            wi == w as int,
            l <= w,
            all_txs@ == txs,
            accounts.inv(),
            forall|c: u16|
                (c as int) % wi < l ==> agree_at(
                    accounts.accounts(),
                    run_from(Map::empty(), txs),
                    c,
                ),
            forall|c: u16|
                (c as int) % wi >= l ==> !(#[trigger] accounts.accounts().contains_key(c)),
            successes@ == lanes_successes(txs, wi, l as int),
            errors@.len() == perrs.len() + lanes_rejections(txs, wi, l as int).len(),
            lanes_rejection_messages(txs, wi, l as int).len() == lanes_rejections(
                txs,
                wi,
                l as int,
            ).len(),
            forall|i: int| 0 <= i < perrs.len() ==> #[trigger] errors@[i] == perrs[i],
            forall|j: int|
                0 <= j < lanes_rejections(txs, wi, l as int).len() ==> (#[trigger] errors@[
                    perrs.len() + j]) is Processing && errors@[perrs.len()
                    + j]->Processing_client_id == lanes_rejections(txs, wi, l as int)[
                    j].spec_client() && errors@[perrs.len() + j]->Processing_tx_id
                    == lanes_rejections(txs, wi, l as int)[j].spec_tx() && errors@[perrs.len()
                    + j]->Processing_message@ == lanes_rejection_messages(txs, wi, l as int)[j],
        decreases w - l,
    {
        let ghost li = l as int;
        let lp = Ghost(|t: Transaction| (t.spec_client() as int) % wi == li);
        let mut lane: Vec<Transaction> = Vec::new();
        let mut i: usize = 0;
        while i < all_txs.len()
            invariant
                w >= 1,
                wi == w as int,
                l < w,
                li == l as int,
                i <= all_txs@.len(),
                lane@ == sel(
                    all_txs@.take(i as int),
                    |t: Transaction| (t.spec_client() as int) % wi == li,
                ),
            decreases all_txs@.len() - i,
        {
            let ghost done = all_txs@.take(i as int);
            let t = all_txs[i];
            let client: u16 = t.client_id().into();
            proof {
                assert(all_txs@.take(i + 1) =~= done.push(t));
                lemma_sel_snoc(done, t, |t0: Transaction| (t0.spec_client() as int) % wi == li);
            }
            if (client as usize) % w == l {
                lane.push(t);
                proof {
                    assert((t.spec_client() as int) % wi == li);
                    assert(sel(done, |t0: Transaction| (t0.spec_client() as int) % wi == li).push(
                        t,
                    ) =~= sel(done, |t0: Transaction| (t0.spec_client() as int) % wi == li)
                        + seq![t]);
                }
            } else {
                proof {
                    assert((t.spec_client() as int) % wi != li);
                    assert(sel(done.push(t), |t0: Transaction| (t0.spec_client() as int) % wi == li)
                        =~= sel(done, |t0: Transaction| (t0.spec_client() as int) % wi == li));
                }
            }
            i = i + 1;
        }
        proof {
            assert(all_txs@.take(all_txs@.len() as int) =~= all_txs@);
            assert(lane@ == lane_txs(txs, wi, li));
        }
        let lane_run = run_lane(&lane);
        let EngineRun { accounts: lane_accounts, successes: mut lane_succ, errors: mut lane_errs } =
            lane_run;
        proof {
            assert forall|c: u16|
                !(accounts.accounts().contains_key(c)
                    && #[trigger] lane_accounts.accounts().contains_key(c)) by {
                if (c as int) % wi != li {
                    lemma_lane_dom(txs, wi, li, c);
                }
            }
        }
        let ghost pre_acc = accounts.accounts();
        accounts.absorb(lane_accounts);
        successes.append(&mut lane_succ);
        let ghost pre_err_len = errors@.len();
        errors.append(&mut lane_errs);
        proof {
            assert forall|c: u16| (c as int) % wi < l + 1 implies agree_at(
                accounts.accounts(),
                run_from(Map::empty(), txs),
                c,
            ) by {
                if (c as int) % wi == li {
                    lemma_sharding_equivalence(txs, wi, c);
                    let lm = run_from(Map::empty(), lane_txs(txs, wi, li));
                    assert(lane_accounts.accounts() == lm);
                    assert(agree_at(lm, run_from(Map::empty(), txs), c));
                    assert(!pre_acc.contains_key(c));
                    if lm.contains_key(c) {
                        assert(lane_accounts.accounts().contains_key(c));
                        assert(accounts.accounts().contains_key(c));
                        assert(accounts.accounts()[c] == lm[c]);
                    } else {
                        assert(!lane_accounts.accounts().contains_key(c));
                        assert(!accounts.accounts().contains_key(c));
                    }
                } else {
                    lemma_lane_dom(txs, wi, li, c);
                    assert(!lane_accounts.accounts().contains_key(c));
                    assert(agree_at(pre_acc, run_from(Map::empty(), txs), c));
                    assert(accounts.accounts().contains_key(c) <==> pre_acc.contains_key(c));
                    if pre_acc.contains_key(c) {
                        assert(accounts.accounts()[c] == pre_acc[c]);
                    }
                }
            }
            assert forall|c: u16|
                (c as int) % wi >= l + 1 implies !(#[trigger] accounts.accounts().contains_key(
                c,
            )) by {
                lemma_lane_dom(txs, wi, li, c);
            }
        }
        l = l + 1;
    }
    proof {
        let fin = accounts.accounts();
        let goal = run_from(Map::empty(), txs);
        assert forall|c: u16|
            #[trigger] fin.contains_key(c) == goal.contains_key(c) && (fin.contains_key(c)
                ==> fin[c] == goal[c]) by {
            assert(0 <= (c as int) % wi < wi);
            assert(agree_at(fin, goal, c));
        }
        assert(fin =~= goal);
    }
    EngineRun { accounts, successes, errors }
}

} // verus!
