//! What entries, their records and the exits of old positions must satisfy.

use super::entry::{
    consensus_rule, cooling, entry_of, gate_of, opened, passed_checks, plan_of, unobserved, EntryPlan,
    EntryResult, Gate,
};
use super::laws::{lemma_consensus_side, lemma_signal_origin, offered, tradable};
use super::resolve::{barriers, legacy_exit, wins_at};
use super::signal::{all_hold, all_signals, horizon_consensus, rule_of, Evaluation, MarketView, Signal};
use crate::db::Quote;
use crate::model::{Exchange, PredictionView};
use crate::num::order;
use crate::num::Num;
use crate::paper;
use crate::paper::ledger::is_open;
use crate::paper::LabConfig;
use vstd::prelude::*;

verus! {

/// A position is entered exactly at a quote that can be traded at, is no older than allowed, is no
/// wider than allowed and shows the size that the notional needs on the side that is taken: asks
/// for a long position, bids for a short one. Each refusal says which of these is the first to
/// fail. The plan is made at that quote and at the far side of its spread.
pub proof fn lemma_entry_needs_a_fit_quote(
    q: Quote,
    direction: Seq<char>,
    stop_move: Num,
    at: i64,
    c: LabConfig,
)
    requires
        direction == "LONG"@ || direction == "SHORT"@,
    ensures
        ({
            let r = entry_of(Some(q), direction, stop_move, at, c);
            let size = if direction == "LONG"@ {
                q.ask_qty
            } else {
                q.bid_qty
            };
            let part = c.slippage_bps.over(Num::from_int(10_000));
            let entry = if direction == "LONG"@ {
                q.ask.times(Num::one().plus(part))
            } else {
                q.bid.times(Num::one().minus(part))
            };
            let spread = q.ask.minus(q.bid).over(
                q.ask.plus(q.bid).over(Num::from_int(2)),
            ).times(Num::from_int(10_000));
            let fit = tradable(q) && at - q.ts <= c.max_quote_age_ms;
            let narrow = !c.max_spread_bps.lt(spread);
            let deep = !size.lt(c.notional.over(entry));
            &&& r is Ok <==> fit && narrow && deep
            &&& r == Err::<EntryPlan, EntryResult>(EntryResult::NoQuote) <==> !fit
            &&& r == Err::<EntryPlan, EntryResult>(EntryResult::WideSpread) <==> fit && !narrow
            &&& r == Err::<EntryPlan, EntryResult>(EntryResult::ThinBook) <==> fit && narrow
                && !deep
            &&& r is Ok ==> {
                let plan = r->Ok_0;
                &&& plan == plan_of(q, direction, stop_move, at, c)
                &&& plan.quote == q
                &&& plan.decision_at == at
                &&& plan.entry_price == entry
                &&& plan.spread_bps == spread
            }
            &&& entry_of(None, direction, stop_move, at, c) == Err::<EntryPlan, EntryResult>(
                EntryResult::NoQuote,
            )
        }),
{
    assert(tradable(q) <==> q.spec_valid());
}

/// A lane asks for a quote exactly where none of its positions is open, every exit is at least the
/// cooldown ago, the capital and what was made of it cover the notional and two percent, and the
/// evaluation is no older than the greatest gap. Each refusal says which of these is the first to
/// fail.
pub proof fn lemma_gate_asks(lane: Seq<PredictionView>, at: i64, now: i64, c: LabConfig)
    ensures
        ({
            let g = gate_of(lane, at, now, c);
            let free = forall|i: int| 0 <= i < lane.len() ==> (#[trigger] lane[i]).status
                != "OPEN"@;
            let cooled = forall|i: int|
                0 <= i < lane.len() && (#[trigger] lane[i]).resolved_at is Some ==> at
                    - lane[i].resolved_at->0 >= c.cooldown_secs * 1000;
            let made = paper::stats_of(lane, c.initial_capital, c).net_pnl;
            let covered = !made.plus(c.initial_capital).lt(
                c.notional.times(Num::ratio(102, 100)),
            );
            let young = now - at <= c.max_gap_ms;
            &&& g == Gate::AlreadyOpen <==> !free
            &&& g == Gate::Cooldown <==> free && !cooled
            &&& g == Gate::NoEquity <==> free && cooled && !covered
            &&& g == Gate::TooLate <==> free && cooled && covered && !young
            &&& g == Gate::AskForQuote <==> free && cooled && covered && young
        }),
{
    let free = forall|i: int| 0 <= i < lane.len() ==> (#[trigger] lane[i]).status != "OPEN"@;
    if free {
        assert forall|i: int| 0 <= i < lane.len() implies !is_open(
            #[trigger] lane[i],
        ) by {
        }
    } else {
        let i = choose|i: int| 0 <= i < lane.len() && (#[trigger] lane[i]).status == "OPEN"@;
        assert(is_open(lane[i]));
    }
    let cooled = forall|i: int|
        0 <= i < lane.len() && (#[trigger] lane[i]).resolved_at is Some ==> at
            - lane[i].resolved_at->0 >= c.cooldown_secs * 1000;
    if cooled {
        assert forall|i: int| 0 <= i < lane.len() implies !cooling(
            #[trigger] lane[i],
            at,
            c,
        ) by {
        }
    } else {
        let i = choose|i: int|
            0 <= i < lane.len() && (#[trigger] lane[i]).resolved_at is Some && !(at
                - lane[i].resolved_at->0 >= c.cooldown_secs * 1000);
        assert(cooling(lane[i], at, c));
    }
}

/// A new position is what was planned: open from the decision on, on the side, at the prices and on
/// the horizon of its signal and plan, with the costs of its exchange, marked at what leaving it at
/// once would be offered, and with nothing of an exit.
pub proof fn lemma_position_is_as_planned(
    id: Seq<char>,
    exchange: Exchange,
    symbol: Seq<char>,
    config_id: Seq<char>,
    reason: Seq<char>,
    snapshot: Option<serde_json::Value>,
    plan: EntryPlan,
    signal: Signal,
    c: LabConfig,
)
    ensures
        ({
            let p = opened(
                unobserved(id, exchange, symbol, config_id, reason, snapshot, plan, signal, c),
                plan,
            );
            let (price, size) = offered(signal.direction@, plan.quote);
            &&& p.id == id && p.symbol == symbol && p.exchange == exchange
            &&& p.status == "OPEN"@
            &&& p.created_at == plan.decision_at
            &&& p.horizon_secs == signal.horizon
            &&& p.direction == signal.direction@
            &&& p.strategy == signal.strategy@
            &&& p.entry_price == plan.entry_price
            &&& p.target_price == plan.target_price
            &&& p.stop_price == plan.stop_price
            &&& p.confidence == signal.evidence
            &&& p.score == signal.score
            &&& p.expected_return == signal.expected_return
            &&& p.resolved_at is None && p.exit_price is None
            &&& p.gross_pnl_bps is None && p.pnl_bps is None
            &&& exchange == Exchange::Binance ==> p.fee_bps == c.binance_fee_bps
            &&& exchange == Exchange::Bybit ==> p.fee_bps == c.bybit_fee_bps
            &&& p.slippage_bps == c.slippage_bps
            &&& p.notional == c.notional
            &&& p.max_gap_ms == c.max_gap_ms
            &&& p.cursor_id == plan.quote.id
            &&& p.last_quote_ts == plan.quote.ts
            &&& p.mark_price == if c.notional.over(plan.entry_price).le(size) {
                Some(price)
            } else {
                None
            }
            &&& p.config_id == config_id
            &&& p.entry_reason == reason
            &&& p.entry_snapshot == snapshot
        }),
{
}

/// Every condition that is recorded with an entry held when the signal was given: the rule of its
/// strategy, or of the consensus what was measured on both exchanges and replayed of the past.
pub proof fn lemma_recorded_conditions_held(v: MarketView, e: Evaluation, i: int, c: LabConfig)
    requires
        0 <= i < all_signals(v, 4, c).len(),
        e.feature == v.feature,
        e.score == v.score,
        v.peer_score == match e.peer {
            Some(p) => Some(p.score),
            None => None,
        },
    ensures
        all_hold(passed_checks(all_signals(v, 4, c)[i], e, c)),
        all_signals(v, 4, c)[i].number < 5 ==> passed_checks(all_signals(v, 4, c)[i], e, c)
            == rule_of(all_signals(v, 4, c)[i].number as int, v.feature, v.score),
{
    reveal_strlit("LONG");
    reveal_strlit("SHORT");
    assert("LONG"@.len() != "SHORT"@.len());
    let s = all_signals(v, 4, c)[i];
    let h = lemma_signal_origin(v, 4, c, i);
    if s.number == 5 {
        lemma_consensus_side(v, h, c);
        let b = s.analogs->0;
        let side = horizon_consensus(v, h, c).sign->0;
        order::lemma_count_order(c.min_analog_samples as u64, b.samples as u64);
        let checks = consensus_rule(e.feature, e.score, e.peer->0.score, side, b, c);
        assert(passed_checks(s, e, c) == checks);
        assert forall|k: int| 0 <= k < checks.len() implies (#[trigger] checks[k]).holds() by {
            assert(k == 0 || k == 1 || k == 2 || k == 3 || k == 4 || k == 5 || k == 6 || k == 7);
        }
    }
}

/// A position of the old model wins at or beyond its target, above the entry for a long position and
/// below for a short one, and its barriers are its target and its stop, the higher one first. It is
/// closed by a trade at a barrier whenever there is one, and else at its last moment at the last
/// price, never before. Its result is that of the price, before fees.
pub proof fn lemma_old_positions_close_at_their_barriers(
    p: PredictionView,
    now: i64,
    crossing: Option<(i64, Num)>,
    last_price: Option<Num>,
)
    requires
        p.direction == "LONG"@ || p.direction == "SHORT"@,
    ensures
        ({
            let r = legacy_exit(p, now, crossing, last_price);
            let hours = if p.horizon_secs > 3600 {
                3600
            } else {
                p.horizon_secs as int
            };
            let end = p.created_at + hours * 1000;
            &&& p.direction == "LONG"@ ==> barriers(p) == (p.target_price, p.stop_price)
            &&& p.direction == "SHORT"@ ==> barriers(p) == (p.stop_price, p.target_price)
            &&& p.direction == "LONG"@ ==> forall|x: Num| #[trigger]
                wins_at(p, x) <==> p.target_price.le(x)
            &&& p.direction == "SHORT"@ ==> forall|x: Num| #[trigger]
                wins_at(p, x) <==> x.le(p.target_price)
            &&& crossing is Some ==> {
                let (at, price) = crossing->0;
                &&& r is Some && r->0.at == at && r->0.price == price
                &&& r->0.pnl_bps == paper::gross_bps(p.direction, p.entry_price, price)
                &&& p.direction == "LONG"@ && p.target_price.le(price) ==> r->0.status@ == "WIN"@
                &&& p.direction == "LONG"@ && !p.target_price.le(price) ==> r->0.status@
                    == "LOSS"@
                &&& p.direction == "SHORT"@ && price.le(p.target_price) ==> r->0.status@ == "WIN"@
                &&& p.direction == "SHORT"@ && !price.le(p.target_price) ==> r->0.status@
                    == "LOSS"@
            }
            &&& crossing is None && (now < end || last_price is None) ==> r is None
            &&& crossing is None && now >= end && last_price is Some ==> {
                &&& r is Some && r->0.status@ == "TIMEOUT"@ && r->0.at == end as i64
                &&& r->0.price == last_price->0
                &&& r->0.pnl_bps == paper::gross_bps(
                    p.direction,
                    p.entry_price,
                    last_price->0,
                )
            }
        }),
{
    reveal_strlit("LONG");
    reveal_strlit("SHORT");
    assert("LONG"@.len() != "SHORT"@.len());
}

} // verus!
