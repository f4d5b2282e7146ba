//! A position from its entry to its exit, quote by quote.

use crate::audit;
use crate::audit::{countable, exit_at, exit_recorded, fillable, observed, ExecutionAudit};
use crate::db::Quote;
use crate::model::{is_moment, Prediction, PredictionView};
use crate::num::Num;
use crate::paper;
use crate::text;
use vstd::prelude::*;

verus! {

/// A position whose outcome cannot be known: it has no result and no mark.
pub open spec fn invalidated(p: PredictionView, at: i64) -> PredictionView {
    PredictionView {
        status: "DATA_GAP"@,
        resolved_at: Some(at),
        pnl_bps: None,
        gross_pnl_bps: None,
        exit_price: None,
        mark_price: None,
        ..p
    }
}

/// A position closed at a price.
pub open spec fn closed_at(
    p: PredictionView,
    status: Seq<char>,
    at: i64,
    fill: Num,
) -> PredictionView {
    PredictionView {
        status,
        resolved_at: Some(at),
        exit_price: Some(fill),
        gross_pnl_bps: Some(paper::gross_bps(p.direction, p.entry_price, fill)),
        pnl_bps: Some(paper::net_bps(p.direction, p.entry_price, fill, p.fee_bps)),
        ..p
    }
}

/// Whether an exit at that price reaches the target.
pub open spec fn reaches_target(p: PredictionView, fill: Num) -> bool {
    if p.direction == "LONG"@ {
        p.target_price.le(fill)
    } else {
        fill.le(p.target_price)
    }
}

/// Whether an exit at that price reaches the stop.
pub open spec fn reaches_stop(p: PredictionView, fill: Num) -> bool {
    if p.direction == "LONG"@ {
        fill.le(p.stop_price)
    } else {
        p.stop_price.le(fill)
    }
}

/// Whether a quote falls into the life of a position.
pub open spec fn within_life(p: PredictionView, q: Quote) -> bool {
    p.created_at < q.ts <= p.deadline()
}

/// Whether a quote follows the last one without a gap.
pub open spec fn continues(p: PredictionView, q: Quote) -> bool {
    p.last_quote_ts <= q.ts && q.ts - p.last_quote_ts <= p.max_gap_ms
}

/// A position at a valid quote: its clock and mark moved.
pub open spec fn moved(p: PredictionView, q: Quote) -> PredictionView {
    PredictionView {
        last_quote_ts: q.ts,
        mark_price: if fillable(p, q) {
            Some(q.spec_exit_price(p.direction))
        } else {
            None
        },
        ..p
    }
}

/// A position after one quote. Quotes outside its life only move the cursor. A quote that is out
/// of order, not valid or behind a gap leaves the outcome unknown. So does a barrier that is
/// reached without the size to fill. A stop goes before a target; a favourable gap is capped at
/// the target, an adverse one keeps the worse fill.
pub open spec fn stepped(p: PredictionView, q: Quote) -> PredictionView {
    if !within_life(p, q) {
        PredictionView { cursor_id: q.id, ..p }
    } else {
        let seen = PredictionView { cursor_id: q.id, ..observed(p, q, continues(p, q)) };
        if q.ts < p.last_quote_ts {
            exit_recorded(invalidated(seen, q.ts), "quote_out_of_order"@, q.ts, Some(q))
        } else if !q.spec_valid() {
            exit_recorded(invalidated(seen, q.ts), "invalid_or_delayed_quote"@, q.ts, Some(q))
        } else if q.ts - p.last_quote_ts > p.max_gap_ms {
            exit_recorded(invalidated(seen, q.ts), "quote_gap"@, q.ts, Some(q))
        } else {
            let now = moved(seen, q);
            let fill = exit_at(p, q);
            let hit = reaches_target(p, fill) || reaches_stop(p, fill);
            if hit && !fillable(p, q) {
                exit_recorded(
                    invalidated(now, q.ts),
                    "insufficient_exit_liquidity"@,
                    q.ts,
                    Some(q),
                )
            } else if reaches_stop(p, fill) {
                exit_recorded(closed_at(now, "LOSS"@, q.ts, fill), "stop_loss"@, q.ts, Some(q))
            } else if reaches_target(p, fill) {
                exit_recorded(
                    closed_at(now, "WIN"@, q.ts, p.target_price),
                    "take_profit"@,
                    q.ts,
                    Some(q),
                )
            } else {
                now
            }
        }
    }
}

/// Whether a quote closes a position.
pub open spec fn closes(p: PredictionView, q: Quote) -> bool {
    let fill = exit_at(p, q);
    within_life(p, q) && (!continues(p, q) || !q.spec_valid() || reaches_target(p, fill)
        || reaches_stop(p, fill))
}

/// A position after quotes, in order, up to the one that closes it.
pub open spec fn walked(p: PredictionView, quotes: Seq<Quote>) -> PredictionView
    decreases quotes.len(),
{
    if quotes.len() == 0 {
        p
    } else if closes(p, quotes[0]) {
        stepped(p, quotes[0])
    } else {
        walked(stepped(p, quotes[0]), quotes.drop_first())
    }
}

/// Whether one of the quotes closes a position.
pub open spec fn closed_by(p: PredictionView, quotes: Seq<Quote>) -> bool
    decreases quotes.len(),
{
    quotes.len() > 0 && (closes(p, quotes[0]) || closed_by(
        stepped(p, quotes[0]),
        quotes.drop_first(),
    ))
}

/// An open position that has seen every quote there is: closed at its deadline, at the last mark
/// where that is recent; without outcome where it is not, or where quotes have stopped.
pub open spec fn settled(p: PredictionView, now: i64) -> PredictionView {
    let deadline = p.deadline() as i64;
    if now >= p.deadline() {
        if p.deadline() - p.last_quote_ts > p.max_gap_ms {
            exit_recorded(invalidated(p, deadline), "timeout_quote_stale"@, deadline, None)
        } else if p.mark_price is Some {
            exit_recorded(
                closed_at(
                    p,
                    "TIMEOUT"@,
                    deadline,
                    paper::spec_exit_fill(p.direction, p.mark_price->0, p.slippage_bps),
                ),
                "horizon_timeout"@,
                deadline,
                None,
            )
        } else {
            exit_recorded(
                invalidated(p, deadline),
                "timeout_insufficient_liquidity"@,
                deadline,
                None,
            )
        }
    } else if now - p.last_quote_ts > p.max_gap_ms {
        exit_recorded(invalidated(p, now), "feed_stale"@, now, None)
    } else {
        p
    }
}

/// A position with an audit: its own, or a partial one from now on.
pub open spec fn audited(p: PredictionView, now: i64) -> PredictionView {
    if p.execution_audit is Some {
        p
    } else {
        PredictionView {
            execution_audit: Some(ExecutionAudit::fresh(p, false, now)),
            ..p
        }
    }
}

/// A position after quotes and, where these were the last ones, after what the time says.
pub open spec fn advanced(
    p: PredictionView,
    quotes: Seq<Quote>,
    now: i64,
    drained: bool,
) -> PredictionView {
    let start = audited(p, now);
    if drained && !closed_by(start, quotes) {
        settled(walked(start, quotes), now)
    } else {
        walked(start, quotes)
    }
}

/// A position whose outcome cannot be known.
fn invalidate(p: &mut Prediction, ts: i64)
    ensures
        final(p)@ == invalidated(old(p)@, ts),
{
    p.status = "DATA_GAP".to_owned();
    p.resolved_at = Some(ts);
    p.pnl_bps = None;
    p.gross_pnl_bps = None;
    p.exit_price = None;
    p.mark_price = None;
}

/// A position closed at a price.
fn close(p: &mut Prediction, status: &str, ts: i64, fill: Num)
    ensures
        final(p)@ == closed_at(old(p)@, status@, ts, fill),
{
    let (gross, net) = paper::pnl(p.direction.as_str(), p.entry_price, fill, p.fee_bps);
    p.status = status.to_owned();
    p.resolved_at = Some(ts);
    p.exit_price = Some(fill);
    p.gross_pnl_bps = Some(gross);
    p.pnl_bps = Some(net);
}

/// The names of the states differ.
pub proof fn lemma_statuses_differ()
    ensures
        "OPEN"@ != "DATA_GAP"@,
        "OPEN"@ != "LOSS"@,
        "OPEN"@ != "WIN"@,
        "OPEN"@ != "TIMEOUT"@,
        "DATA_GAP"@ != "LOSS"@,
        "DATA_GAP"@ != "WIN"@,
        "DATA_GAP"@ != "TIMEOUT"@,
        "LOSS"@ != "WIN"@,
        "LOSS"@ != "TIMEOUT"@,
        "WIN"@ != "TIMEOUT"@,
{
    reveal_strlit("OPEN");
    reveal_strlit("DATA_GAP");
    reveal_strlit("LOSS");
    reveal_strlit("WIN");
    reveal_strlit("TIMEOUT");
    assert("OPEN"@[0] != "LOSS"@[0]);
    assert("OPEN"@.len() != "DATA_GAP"@.len());
    assert("OPEN"@.len() != "WIN"@.len());
    assert("OPEN"@.len() != "TIMEOUT"@.len());
    assert("DATA_GAP"@.len() != "LOSS"@.len());
    assert("DATA_GAP"@.len() != "WIN"@.len());
    assert("DATA_GAP"@.len() != "TIMEOUT"@.len());
    assert("LOSS"@.len() != "WIN"@.len());
    assert("LOSS"@.len() != "TIMEOUT"@.len());
    assert("WIN"@.len() != "TIMEOUT"@.len());
}

/// A position after one quote, and whether that closed it.
fn step(p: &mut Prediction, q: &Quote) -> (r: bool)
    requires
        old(p)@.timely(),
        is_moment(q.ts),
        old(p)@.execution_audit is Some,
        countable(old(p)@.execution_audit, 1),
    ensures
        final(p)@ == stepped(old(p)@, *q),
        r == closes(old(p)@, *q),
{
    let ghost start = p@;
    let deadline = p.created_at + p.horizon_secs * 1000;
    if q.ts <= p.created_at || q.ts > deadline {
        p.cursor_id = q.id;
        return false;
    }
    let continuous = q.ts >= p.last_quote_ts && q.ts - p.last_quote_ts <= p.max_gap_ms;
    let last = p.last_quote_ts;
    audit::observe(p, q, continuous);
    p.cursor_id = q.id;
    if q.ts < last {
        invalidate(p, q.ts);
        audit::record_exit(p, "quote_out_of_order", q.ts, Some(q));
        return true;
    }
    if !q.valid() {
        invalidate(p, q.ts);
        audit::record_exit(p, "invalid_or_delayed_quote", q.ts, Some(q));
        return true;
    }
    if q.ts - last > p.max_gap_ms {
        invalidate(p, q.ts);
        audit::record_exit(p, "quote_gap", q.ts, Some(q));
        return true;
    }
    // Thin liquidity while holding is no exit. Only a requested fill becomes unverifiable; a mark
    // that cannot be filled is left unknown.
    let liquid = p.notional.over(p.entry_price).le(q.exit_qty(p.direction.as_str()));
    let price = q.exit_price(p.direction.as_str());
    p.last_quote_ts = q.ts;
    p.mark_price =
    if liquid {
        Some(price)
    } else {
        None
    };
    let fill = paper::exit_fill(p.direction.as_str(), price, p.slippage_bps);
    let (target_hit, stop_hit) = if text::same(p.direction.as_str(), "LONG") {
        (p.target_price.le(fill), fill.le(p.stop_price))
    } else {
        (fill.le(p.target_price), p.stop_price.le(fill))
    };
    if (target_hit || stop_hit) && !liquid {
        invalidate(p, q.ts);
        audit::record_exit(p, "insufficient_exit_liquidity", q.ts, Some(q));
        return true;
    }
    if stop_hit {
        close(p, "LOSS", q.ts, fill);
        audit::record_exit(p, "stop_loss", q.ts, Some(q));
        return true;
    }
    // Cap favorable gaps at the target; adverse stop gaps keep the worse executable fill.
    if target_hit {
        let target = p.target_price;
        close(p, "WIN", q.ts, target);
        audit::record_exit(p, "take_profit", q.ts, Some(q));
    }
    target_hit
}

/// A step keeps the times of a position within range, and counts at most one quote.
proof fn lemma_step_keeps_range(p: PredictionView, q: Quote, more: int)
    requires
        p.timely(),
        is_moment(q.ts),
        p.execution_audit is Some,
        countable(p.execution_audit, more),
        more >= 1,
    ensures
        stepped(p, q).timely(),
        stepped(p, q).execution_audit is Some,
        countable(stepped(p, q).execution_audit, more - 1),
{
}

/// Moves a position through quotes, in the order in which they were stored. `drained` says that
/// no further quote is stored. A position without audit gets a partial one.
pub fn advance_position(p: &mut Prediction, quotes: &[Quote], now: i64, drained: bool)
    requires
        old(p)@.timely(),
        countable(old(p)@.execution_audit, quotes@.len() as int),
        forall|i: int| 0 <= i < quotes@.len() ==> is_moment((#[trigger] quotes@[i]).ts),
        is_moment(now),
    ensures
        final(p)@ == advanced(old(p)@, quotes@, now, drained),
{
    let ghost start = p@;
    if p.execution_audit.is_none() {
        let trace = ExecutionAudit::start(p, false, now);
        p.execution_audit = Some(trace);
    }
    let ghost begun = audited(start, now);
    assert(p@ =~= begun);
    let ghost all = quotes@;
    assert(all.skip(0) =~= all);
    let count = quotes.len();
    let mut n: usize = 0;
    while n < count
        invariant
            n <= count == quotes@.len(),
            all == quotes@,
            p@.timely(),
            p@.execution_audit is Some,
            countable(p@.execution_audit, quotes@.len() - n),
            forall|i: int| 0 <= i < quotes@.len() ==> is_moment((#[trigger] quotes@[i]).ts),
            walked(p@, all.skip(n as int)) == walked(begun, all),
            closed_by(p@, all.skip(n as int)) == closed_by(begun, all),
            begun == audited(start, now),
            start == old(p)@,
        decreases quotes@.len() - n,
    {
        proof {
            assert(all.skip(n as int)[0] == all[n as int]);
            assert(all.skip(n as int).drop_first() =~= all.skip(n + 1));
            lemma_step_keeps_range(p@, all[n as int], quotes@.len() - n);
        }
        if step(p, &quotes[n]) {
            return;
        }
        n += 1;
    }
    assert(all.skip(n as int) =~= Seq::<Quote>::empty());
    assert(p@ == walked(begun, all));
    if !drained {
        return;
    }
    let deadline = p.created_at + p.horizon_secs * 1000;
    if now >= deadline {
        if deadline - p.last_quote_ts > p.max_gap_ms {
            invalidate(p, deadline);
            audit::record_exit(p, "timeout_quote_stale", deadline, None);
        } else {
            match p.mark_price {
                Some(mark) => {
                    let fill = paper::exit_fill(p.direction.as_str(), mark, p.slippage_bps);
                    close(p, "TIMEOUT", deadline, fill);
                    audit::record_exit(p, "horizon_timeout", deadline, None);
                },
                None => {
                    invalidate(p, deadline);
                    audit::record_exit(p, "timeout_insufficient_liquidity", deadline, None);
                },
            }
        }
    } else if now - p.last_quote_ts > p.max_gap_ms {
        invalidate(p, now);
        audit::record_exit(p, "feed_stale", now, None);
    }
}

/// Walking through quotes in two parts is walking through them at once.
proof fn lemma_walked_in_parts(p: PredictionView, a: Seq<Quote>, b: Seq<Quote>)
    ensures
        closed_by(p, a + b) == (closed_by(p, a) || closed_by(walked(p, a), b)),
        walked(p, a + b) == if closed_by(p, a) {
            walked(p, a)
        } else {
            walked(walked(p, a), b)
        },
    decreases a.len(),
{
    if a.len() == 0 {
        assert(a + b =~= b);
    } else {
        assert((a + b)[0] == a[0]);
        assert((a + b).drop_first() =~= a.drop_first() + b);
        if !closes(p, a[0]) {
            lemma_walked_in_parts(stepped(p, a[0]), a.drop_first(), b);
        }
    }
}

proof fn lemma_walked_keeps_audit(p: PredictionView, quotes: Seq<Quote>)
    requires
        p.execution_audit is Some,
    ensures
        walked(p, quotes).execution_audit is Some,
    decreases quotes.len(),
{
    if quotes.len() > 0 && !closes(p, quotes[0]) {
        lemma_walked_keeps_audit(stepped(p, quotes[0]), quotes.drop_first());
    }
}

/// Paging through stored quotes does not change the outcome: a page that is not the last one
/// followed, while the position is open, by the rest gives what all quotes give at once.
pub proof fn lemma_pages_give_the_same(
    p: PredictionView,
    page: Seq<Quote>,
    rest: Seq<Quote>,
    now: i64,
    drained: bool,
)
    requires
        p.status == "OPEN"@,
        forall|i: int| 0 <= i < page.len() ==> is_moment((#[trigger] page[i]).ts),
    ensures
        ({
            let first = advanced(p, page, now, false);
            advanced(p, page + rest, now, drained) == if first.status == "OPEN"@ {
                advanced(first, rest, now, drained)
            } else {
                first
            }
        }),
{
    let start = audited(p, now);
    lemma_walked_in_parts(start, page, rest);
    lemma_walked_keeps_audit(start, page);
    lemma_walked_outcome(start, page);
}

/// What no quote and no time can change: everything that was fixed when the position was opened.
pub open spec fn same_entry(a: PredictionView, b: PredictionView) -> bool {
    &&& a.id == b.id
    &&& a.exchange == b.exchange
    &&& a.symbol == b.symbol
    &&& a.created_at == b.created_at
    &&& a.horizon_secs == b.horizon_secs
    &&& a.direction == b.direction
    &&& a.entry_price == b.entry_price
    &&& a.target_price == b.target_price
    &&& a.stop_price == b.stop_price
    &&& a.confidence == b.confidence
    &&& a.score == b.score
    &&& a.expected_return == b.expected_return
    &&& a.strategy == b.strategy
    &&& a.config_id == b.config_id
    &&& a.fee_bps == b.fee_bps
    &&& a.slippage_bps == b.slippage_bps
    &&& a.notional == b.notional
    &&& a.max_gap_ms == b.max_gap_ms
    &&& a.entry_reason == b.entry_reason
    &&& a.entry_snapshot == b.entry_snapshot
}

/// The outcome that a status stands for, and its evidence.
pub open spec fn sound_outcome(p: PredictionView) -> bool {
    let exit = p.execution_audit->0.exit;
    &&& p.execution_audit is Some
    &&& p.status == "OPEN"@ || p.status == "DATA_GAP"@ || p.status == "WIN"@ || p.status
        == "LOSS"@ || p.status == "TIMEOUT"@
    &&& p.status != "OPEN"@ ==> p.resolved_at is Some && exit is Some && exit->0.at
        == p.resolved_at->0 && exit->0.fill_price == p.exit_price
    &&& p.status == "DATA_GAP"@ ==> p.pnl_bps is None && p.gross_pnl_bps is None && p.exit_price
        is None && p.mark_price is None
    &&& p.status == "WIN"@ || p.status == "LOSS"@ || p.status == "TIMEOUT"@ ==> {
        &&& p.exit_price is Some
        &&& p.gross_pnl_bps == Some(
            paper::gross_bps(p.direction, p.entry_price, p.exit_price->0),
        )
        &&& p.pnl_bps == Some(
            paper::net_bps(p.direction, p.entry_price, p.exit_price->0, p.fee_bps),
        )
    }
    // A favourable gap is capped at the target.
    &&& p.status == "WIN"@ ==> p.exit_price == Some(p.target_price)
    // An adverse gap keeps the worse fill.
    &&& p.status == "LOSS"@ ==> reaches_stop(p, p.exit_price->0)
    // Nothing after the deadline counts.
    &&& p.status != "OPEN"@ ==> p.resolved_at->0 <= p.deadline()
    &&& p.status == "TIMEOUT"@ ==> p.resolved_at->0 == p.deadline()
}

/// A quote closes a position exactly where its status changes, and leaves a sound outcome.
pub proof fn lemma_step_outcome(p: PredictionView, q: Quote)
    requires
        p.status == "OPEN"@,
        p.execution_audit is Some,
        is_moment(q.ts),
    ensures
        same_entry(p, stepped(p, q)),
        sound_outcome(stepped(p, q)),
        stepped(p, q).status != "TIMEOUT"@,
        closes(p, q) == (stepped(p, q).status != "OPEN"@),
{
    lemma_statuses_differ();
}

proof fn lemma_walked_outcome(p: PredictionView, quotes: Seq<Quote>)
    requires
        p.status == "OPEN"@,
        p.execution_audit is Some,
        forall|i: int| 0 <= i < quotes.len() ==> is_moment((#[trigger] quotes[i]).ts),
    ensures
        same_entry(p, walked(p, quotes)),
        sound_outcome(walked(p, quotes)),
        walked(p, quotes).status != "TIMEOUT"@,
        closed_by(p, quotes) == (walked(p, quotes).status != "OPEN"@),
    decreases quotes.len(),
{
    lemma_statuses_differ();
    if quotes.len() > 0 {
        lemma_step_outcome(p, quotes[0]);
        if !closes(p, quotes[0]) {
            lemma_walked_outcome(stepped(p, quotes[0]), quotes.drop_first());
        }
    }
}

/// Whatever the quotes and the time, an open position keeps what was fixed at its entry.
pub proof fn lemma_same_entry_advances(
    p: PredictionView,
    quotes: Seq<Quote>,
    now: i64,
    drained: bool,
)
    ensures
        same_entry(p, advanced(p, quotes, now, drained)),
{
    lemma_walked_keeps_entry(audited(p, now), quotes);
}

proof fn lemma_walked_keeps_entry(p: PredictionView, quotes: Seq<Quote>)
    ensures
        same_entry(p, walked(p, quotes)),
    decreases quotes.len(),
{
    if quotes.len() > 0 && !closes(p, quotes[0]) {
        lemma_walked_keeps_entry(stepped(p, quotes[0]), quotes.drop_first());
    }
}

/// Whatever the quotes, an open position keeps what was fixed at its entry, and its status says
/// what happened: an unknown outcome has no result, a win is paid at the target and no better, a
/// loss at the stop or worse, a time limit at the deadline, and every exit is on record. A time
/// limit is only reached once every stored quote was seen and the deadline has passed.
pub proof fn lemma_outcome_is_sound(
    p: PredictionView,
    quotes: Seq<Quote>,
    now: i64,
    drained: bool,
)
    requires
        p.status == "OPEN"@,
        p.timely(),
        forall|i: int| 0 <= i < quotes.len() ==> is_moment((#[trigger] quotes[i]).ts),
    ensures
        same_entry(p, advanced(p, quotes, now, drained)),
        sound_outcome(advanced(p, quotes, now, drained)),
        advanced(p, quotes, now, drained).status == "TIMEOUT"@ ==> drained && now
            >= p.deadline(),
{
    lemma_statuses_differ();
    lemma_walked_outcome(audited(p, now), quotes);
}

} // verus!
