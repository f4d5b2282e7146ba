//! What signals, plans and positions must satisfy, stated on prices and on what was measured.

use super::analog::{labels, summary};
use super::entry::plan_of;
use super::bucket::Bucket;
use super::feature::{feature_of, score_of, Feature, LogReturns};
use super::position::{
    advanced, closes, lemma_pages_give_the_same, lemma_same_entry_advances, lemma_statuses_differ,
    lemma_step_outcome, same_entry, stepped, walked,
};
use super::readings::lemma_breakout_tells_the_range;
use super::signal::{
    all_hold, all_lanes, all_signals, horizon_consensus, horizon_evidence, horizon_signals,
    market_of, readiness, NotReady,
    lane_of, lemma_every_lane_is_reported, rule_of, rule_sign, side_taken, signal_of, stop_distance,
    suggested_return, MarketView, Reason, Signal,
};
use crate::audit::{countable, observed, ExecutionAudit};
use crate::db::Quote;
use crate::model::{is_moment, Exchange, PredictionView};
use crate::num::laws;
use crate::num::order;
use crate::num::round::HIDDEN_BIT;
use crate::num::Num;
use crate::paper;
use crate::paper::{LabConfig, HORIZONS};
use vstd::prelude::*;

verus! {

/// The stop lies far enough away, and no farther than that: as far as the volatility over the
/// horizon, the volatility of single windows, the costs and the spread each ask for, between a
/// ten-thousandth and fifteen thousandths of the price. Below that limit three times the way to
/// the stop, which is the way to the target, is more than what a round trip costs and the edge
/// that is asked for.
pub proof fn lemma_stop_is_far_enough(f: Feature, steps: i64, fee_bps: Num, c: LabConfig)
    ensures
        ({
            let r = stop_distance(f, steps, fee_bps, c);
            let low = Num::ratio(1, 10_000);
            let high = Num::ratio(15, 1_000);
            let sigma = Num::ratio(65, 100).times(f.volatility_60s).plus(
                Num::ratio(35, 100).times(f.volatility_300s),
            ).larger(Num::ratio(5, 1_000_000));
            let over_horizon = sigma.times(Num::from_int(steps).root()).times(
                Num::ratio(55, 100),
            ).over(Num::from_int(3));
            let over_windows = sigma.times(Num::ratio(135, 100));
            let needed = Num::from_int(2).times(fee_bps).plus(
                Num::from_int(2).times(c.slippage_bps),
            ).plus(f.spread_bps).plus(c.min_edge_bps);
            let over_costs = needed.times(Num::ratio(125, 100)).over(Num::from_int(30_000));
            let over_spread = f.spread_bps.times(Num::from_int(4)).over(Num::from_int(10_000));
            &&& low.le(r) && r.le(high)
            &&& r == high || over_horizon.is_nan() || over_horizon.le(r)
            &&& r == high || over_windows.le(r)
            &&& r == high || over_costs.is_nan() || over_costs.le(r)
            &&& r == high || over_spread.is_nan() || over_spread.le(r)
            &&& r == high || r == low || r == over_horizon || r == over_windows || r == over_costs
                || r == over_spread
            &&& r.lt(high) && Num::zero().lt(needed) ==> needed.lt(
                r.times(Num::from_int(30_000)),
            )
        }),
{
    let low = Num::ratio(1, 10_000);
    let high = Num::ratio(15, 1_000);
    order::lemma_ratio_order(1, 10_000, 15, 1_000);
    order::lemma_ratio_order(15, 1_000, 15, 1_000);
    order::lemma_ratio_order(5, 1_000_000, 5, 1_000_000);
    order::lemma_ratio_order(135, 100, 135, 100);
    let sigma = Num::ratio(65, 100).times(f.volatility_60s).plus(
        Num::ratio(35, 100).times(f.volatility_300s),
    ).larger(Num::ratio(5, 1_000_000));
    let needed = Num::from_int(2).times(fee_bps).plus(
        Num::from_int(2).times(c.slippage_bps),
    ).plus(f.spread_bps).plus(c.min_edge_bps);
    laws::lemma_product_sign(sigma, Num::ratio(135, 100));
    let r = stop_distance(f, steps, fee_bps, c);
    if r.lt(high) && Num::zero().lt(needed) {
        let over_costs = needed.times(Num::ratio(125, 100)).over(Num::from_int(30_000));
        order::lemma_ratio_order(125, 100, 125, 100);
        laws::lemma_product_sign(needed, Num::ratio(125, 100));
        laws::lemma_whole_order(1, 30_000);
        laws::lemma_whole_order(30_000, 30_000);
        laws::lemma_whole_one();
        laws::lemma_quotient_sign(needed.times(Num::ratio(125, 100)), Num::from_int(30_000));
        order::lemma_margin(needed, r);
    }
}

/// Target and stop of a plan lie on their own sides of the entry. The entry is at the far side of
/// the spread or beyond. Of a position of ordinary price and of any stop that a signal asks for,
/// the target gains and the stop loses, before fees.
pub proof fn lemma_plan_sides(
    q: Quote,
    direction: Seq<char>,
    stop_move: Num,
    decision_at: i64,
    c: LabConfig,
)
    requires
        direction == "LONG"@ || direction == "SHORT"@,
        q.bid.is_positive(),
        q.ask.is_positive(),
        Num::zero().le(c.slippage_bps),
        plan_of(q, direction, stop_move, decision_at, c).entry_price.is_positive(),
        Num::zero().lt(stop_move),
        stop_move.is_finite(),
        Num::one().le(c.risk_reward),
        c.risk_reward.is_finite(),
    ensures
        ({
            let plan = plan_of(q, direction, stop_move, decision_at, c);
            let clear = Num::ratio(1, 10_000).le(stop_move) && plan.entry_price.bits
                >= HIDDEN_BIT;
            &&& direction == "LONG"@ ==> {
                &&& q.ask.le(plan.entry_price)
                &&& plan.stop_price.le(plan.entry_price)
                &&& plan.entry_price.le(plan.target_price)
                &&& clear ==> plan.stop_price.lt(plan.entry_price)
                &&& clear ==> plan.entry_price.lt(plan.target_price)
            }
            &&& direction == "SHORT"@ ==> {
                &&& plan.entry_price.le(q.bid)
                &&& plan.target_price.le(plan.entry_price)
                &&& plan.entry_price.le(plan.stop_price)
                &&& clear ==> plan.target_price.lt(plan.entry_price)
                &&& clear ==> plan.entry_price.lt(plan.stop_price)
            }
            &&& clear ==> Num::zero().lt(
                paper::gross_bps(direction, plan.entry_price, plan.target_price),
            )
            &&& clear ==> paper::gross_bps(direction, plan.entry_price, plan.stop_price).lt(
                Num::zero(),
            )
        }),
{
    reveal_strlit("LONG");
    reveal_strlit("SHORT");
    assert("LONG"@.len() != "SHORT"@.len());
    let plan = plan_of(q, direction, stop_move, decision_at, c);
    let entry = plan.entry_price;
    let one = Num::one();
    let far = stop_move.times(c.risk_reward);
    let clear = Num::ratio(1, 10_000).le(stop_move) && entry.bits >= HIDDEN_BIT;
    paper::lemma_entry_slippage_is_adverse(q.bid, q.ask, c.slippage_bps);
    order::lemma_times_one(stop_move);
    laws::lemma_negated_twice(stop_move);
    laws::lemma_times_grows(stop_move, c.risk_reward);
    order::lemma_times_negated(stop_move, c.risk_reward);
    laws::lemma_plus_grows(one, far);
    laws::lemma_plus_grows(one, stop_move);
    laws::lemma_minus_shrinks(one, far);
    laws::lemma_minus_shrinks(one, stop_move);
    laws::lemma_times_grows(entry, one.plus(far));
    laws::lemma_times_grows(entry, one.plus(stop_move));
    laws::lemma_times_shrinks(entry, one.minus(far));
    laws::lemma_times_shrinks(entry, one.minus(stop_move));
    if clear {
        order::lemma_one_moves(stop_move);
        order::lemma_one_moves(far);
        order::lemma_times_strict(entry, one.plus(far));
        order::lemma_times_strict(entry, one.plus(stop_move));
        order::lemma_times_strict(entry, one.minus(far));
        order::lemma_times_strict(entry, one.minus(stop_move));
        paper::lemma_result_follows_the_price(entry, plan.target_price);
        paper::lemma_result_follows_the_price(entry, plan.stop_price);
    }
}

/// Whether a strategy, by its number, asks for that side on a horizon.
pub open spec fn asks(s: Seq<Signal>, number: int, horizon: i64, direction: Seq<char>) -> bool {
    exists|i: int| #[trigger] asks_at(s, i, number, horizon, direction)
}

/// Whether a signal is of that strategy, horizon and side.
pub open spec fn asks_at(
    s: Seq<Signal>,
    i: int,
    number: int,
    horizon: i64,
    direction: Seq<char>,
) -> bool {
    0 <= i < s.len() && s[i].number == number && s[i].horizon == horizon && s[i].direction@
        == direction
}

/// The side of a number, as a direction.
spec fn direction_of(sign: Num) -> Seq<char> {
    if Num::zero().lt(sign) {
        "LONG"@
    } else {
        "SHORT"@
    }
}

/// Whether a side was taken that is that direction.
spec fn takes(side: Option<Num>, direction: Seq<char>) -> bool {
    side is Some && direction_of(side->0) == direction
}

proof fn lemma_joined(a: Seq<Signal>, b: Seq<Signal>, number: int, horizon: i64, d: Seq<char>)
    ensures
        asks(a + b, number, horizon, d) <==> asks(a, number, horizon, d) || asks(
            b,
            number,
            horizon,
            d,
        ),
{
    let s = a + b;
    if asks(s, number, horizon, d) {
        let i = choose|i: int| #[trigger] asks_at(s, i, number, horizon, d);
        if i < a.len() {
            assert(asks_at(a, i, number, horizon, d));
        } else {
            assert(asks_at(b, i - a.len(), number, horizon, d));
        }
    }
    if asks(a, number, horizon, d) {
        let i = choose|i: int| #[trigger] asks_at(a, i, number, horizon, d);
        assert(asks_at(s, i, number, horizon, d));
    }
    if asks(b, number, horizon, d) {
        let i = choose|i: int| #[trigger] asks_at(b, i, number, horizon, d);
        assert(asks_at(s, i + a.len(), number, horizon, d));
    }
}

proof fn lemma_horizon_asks(
    n: int,
    v: MarketView,
    h: int,
    c: LabConfig,
    number: int,
    horizon: i64,
    d: Seq<char>,
)
    requires
        0 <= n <= 6,
        0 <= h < 4,
        0 <= number < 6,
    ensures
        ({
            let consensus = horizon_consensus(v, h, c);
            let stop = stop_distance(v.feature, (HORIZONS@[h] / 5) as i64, v.fee_bps, c);
            asks(
                horizon_signals(n, HORIZONS@[h], v.feature, v.score, stop, consensus),
                number,
                horizon,
                d,
            ) <==> number < n && horizon == HORIZONS@[h] && takes(
                side_taken(number, v.feature, v.score, consensus),
                d,
            )
        }),
    decreases n,
{
    if n > 0 {
        lemma_horizon_asks(n - 1, v, h, c, number, horizon, d);
        let consensus = horizon_consensus(v, h, c);
        let stop = stop_distance(v.feature, (HORIZONS@[h] / 5) as i64, v.fee_bps, c);
        let rest = horizon_signals(n - 1, HORIZONS@[h], v.feature, v.score, stop, consensus);
        let all = horizon_signals(n, HORIZONS@[h], v.feature, v.score, stop, consensus);
        if side_taken(n - 1, v.feature, v.score, consensus) is Some {
            let one = seq![all.last()];
            assert(all =~= rest + one);
            lemma_joined(rest, one, number, horizon, d);
            if takes(side_taken(n - 1, v.feature, v.score, consensus), d) && number == n - 1
                && horizon == HORIZONS@[h] {
                assert(asks_at(one, 0, number, horizon, d));
            }
        }
    }
}

proof fn lemma_all_ask(
    v: MarketView,
    m: int,
    c: LabConfig,
    number: int,
    h: int,
    d: Seq<char>,
)
    requires
        0 <= m <= 4,
        0 <= h < 4,
        0 <= number < 6,
    ensures
        asks(all_signals(v, m, c), number, HORIZONS@[h], d) <==> h < m && takes(
            side_taken(number, v.feature, v.score, horizon_consensus(v, h, c)),
            d,
        ),
    decreases m,
{
    assert(HORIZONS@[0] == 60 && HORIZONS@[1] == 300 && HORIZONS@[2] == 900 && HORIZONS@[3]
        == 3600);
    if m > 0 {
        lemma_all_ask(v, m - 1, c, number, h, d);
        lemma_horizon_asks(6, v, m - 1, c, number, HORIZONS@[h], d);
        let stop = stop_distance(v.feature, (HORIZONS@[m - 1] / 5) as i64, v.fee_bps, c);
        let t = horizon_signals(
            6,
            HORIZONS@[m - 1],
            v.feature,
            v.score,
            stop,
            horizon_consensus(v, m - 1, c),
        );
        lemma_joined(all_signals(v, m - 1, c), t, number, HORIZONS@[h], d);
    } else {
        assert forall|i: int| !(#[trigger] asks_at(
            all_signals(v, m, c),
            i,
            number,
            HORIZONS@[h],
            d,
        )) by {
        }
    }
}

proof fn lemma_rule(strategy: int, f: Feature, score: Num)
    requires
        0 <= strategy < 5,
    ensures
        ({
            let s = rule_of(strategy, f, score);
            all_hold(s) <==> {
                &&& s[0].holds()
                &&& s[1].holds()
                &&& s[2].holds()
                &&& s[3].holds()
                &&& s.len() > 4 ==> s[4].holds()
            }
        }),
        4 <= rule_of(strategy, f, score).len() <= 5,
{
    let s = rule_of(strategy, f, score);
    if s[0].holds() && s[1].holds() && s[2].holds() && s[3].holds() && (s.len() > 4
        ==> s[4].holds()) {
        assert forall|i: int| 0 <= i < s.len() implies (#[trigger] s[i]).holds() by {
            assert(i == 0 || i == 1 || i == 2 || i == 3 || i == 4);
        }
    }
}

proof fn lemma_directions()
    ensures
        "LONG"@ != "SHORT"@,
{
    reveal_strlit("LONG");
    reveal_strlit("SHORT");
    assert("LONG"@.len() != "SHORT"@.len());
}

/// What it takes to be at least so far from zero.
proof fn lemma_abs(x: Num, t: Num)
    requires
        Num::zero().lt(t),
    ensures
        t.le(x.abs()) <==> t.le(x) || x.le(t.negated()),
        t.le(x) ==> Num::zero().lt(x),
        x.le(t.negated()) ==> x.lt(Num::zero()),
{
    laws::lemma_signed(true, t.magnitude());
    if !x.is_nan() {
        laws::lemma_signed(false, x.magnitude());
    }
}

/// Following the flow means to buy where the score is high and sell where it is low, and only where
/// trades, book and price point the same way; fading it means the opposite at the very same time.
pub proof fn lemma_flow_sides(v: MarketView, h: int, c: LabConfig)
    requires
        0 <= h < 4,
    ensures
        ({
            let s = all_signals(v, 4, c);
            let f = v.feature;
            let borne_out = Num::ratio(2, 100).lt(v.score.times(f.flow_60s)) && Num::ratio(
                1,
                100,
            ).lt(v.score.times(f.book_imbalance_60s)) && Num::zero().lt(
                v.score.times(f.ret_15s),
            );
            let up = asks(s, 0, HORIZONS@[h], "LONG"@);
            let down = asks(s, 0, HORIZONS@[h], "SHORT"@);
            &&& up <==> borne_out && Num::ratio(30, 100).le(v.score)
            &&& down <==> borne_out && v.score.le(Num::ratio(30, 100).negated())
            &&& up ==> Num::zero().lt(v.score) && Num::zero().lt(f.flow_60s) && Num::zero().lt(
                f.book_imbalance_60s,
            ) && Num::zero().lt(f.ret_15s)
            &&& down ==> v.score.lt(Num::zero()) && f.flow_60s.lt(Num::zero())
                && f.book_imbalance_60s.lt(Num::zero()) && f.ret_15s.lt(Num::zero())
            &&& asks(s, 1, HORIZONS@[h], "SHORT"@) <==> up
            &&& asks(s, 1, HORIZONS@[h], "LONG"@) <==> down
        }),
{
    let f = v.feature;
    lemma_directions();
    lemma_all_ask(v, 4, c, 0, h, "LONG"@);
    lemma_all_ask(v, 4, c, 0, h, "SHORT"@);
    lemma_all_ask(v, 4, c, 1, h, "LONG"@);
    lemma_all_ask(v, 4, c, 1, h, "SHORT"@);
    lemma_rule(0, f, v.score);
    lemma_rule(1, f, v.score);
    order::lemma_ratio_order(30, 100, 30, 100);
    order::lemma_ratio_order(2, 100, 2, 100);
    order::lemma_ratio_order(1, 100, 1, 100);
    lemma_abs(v.score, Num::ratio(30, 100));
    order::lemma_product_tells_signs(v.score, f.flow_60s);
    order::lemma_product_tells_signs(v.score, f.book_imbalance_60s);
    order::lemma_product_tells_signs(v.score, f.ret_15s);
    if Num::zero().lt(v.score) || v.score.lt(Num::zero()) {
        order::lemma_signum(v.score);
        laws::lemma_negated_twice(Num::one());
    }
}

/// A pullback is bought in a straight rise and sold in a straight fall: against the last seconds,
/// which went the other way, once the price has turned again and with the flow of five minutes.
pub proof fn lemma_pullback_sides(v: MarketView, h: int, c: LabConfig)
    requires
        0 <= h < 4,
    ensures
        ({
            let s = all_signals(v, 4, c);
            let f = v.feature;
            let set_up = Num::ratio(30, 100).le(f.trend_efficiency) && Num::zero().lt(
                f.ret_300s.times(f.ret_60s),
            ) && f.ret_15s.times(f.ret_300s).lt(Num::zero()) && Num::zero().lt(
                f.turn.times(f.ret_300s),
            ) && Num::zero().lt(f.flow_300s.times(f.ret_300s));
            let up = asks(s, 2, HORIZONS@[h], "LONG"@);
            let down = asks(s, 2, HORIZONS@[h], "SHORT"@);
            &&& up <==> set_up && Num::zero().lt(f.ret_300s)
            &&& down <==> set_up && f.ret_300s.lt(Num::zero())
            &&& up ==> Num::zero().lt(f.ret_60s) && f.ret_15s.lt(Num::zero()) && Num::zero().lt(
                f.turn,
            ) && Num::zero().lt(f.flow_300s)
            &&& down ==> f.ret_60s.lt(Num::zero()) && Num::zero().lt(f.ret_15s) && f.turn.lt(
                Num::zero(),
            ) && f.flow_300s.lt(Num::zero())
        }),
{
    let f = v.feature;
    lemma_directions();
    lemma_all_ask(v, 4, c, 2, h, "LONG"@);
    lemma_all_ask(v, 4, c, 2, h, "SHORT"@);
    lemma_rule(2, f, v.score);
    order::lemma_product_tells_signs(f.ret_300s, f.ret_60s);
    order::lemma_product_tells_signs(f.ret_15s, f.ret_300s);
    order::lemma_product_tells_signs(f.turn, f.ret_300s);
    order::lemma_product_tells_signs(f.flow_300s, f.ret_300s);
    if Num::zero().lt(f.ret_300s) || f.ret_300s.lt(Num::zero()) {
        order::lemma_signum(f.ret_300s);
    }
}

/// A breakout is followed: bought above the range and sold below it, on more volume and more
/// trades than before, with the score and the flow on its side.
pub proof fn lemma_breakout_sides(v: MarketView, h: int, c: LabConfig)
    requires
        0 <= h < 4,
    ensures
        ({
            let s = all_signals(v, 4, c);
            let f = v.feature;
            let busy = Num::ratio(125, 100).le(f.volume_ratio) && Num::ratio(110, 100).le(
                f.trade_intensity_ratio,
            ) && Num::ratio(20, 100).lt(v.score.times(f.breakout)) && Num::ratio(15, 100).lt(
                f.flow_60s.times(f.breakout),
            );
            let up = asks(s, 3, HORIZONS@[h], "LONG"@);
            let down = asks(s, 3, HORIZONS@[h], "SHORT"@);
            &&& up <==> busy && Num::zero().lt(f.breakout)
            &&& down <==> busy && f.breakout.lt(Num::zero())
            &&& up ==> Num::zero().lt(v.score) && Num::zero().lt(f.flow_60s)
            &&& down ==> v.score.lt(Num::zero()) && f.flow_60s.lt(Num::zero())
        }),
{
    let f = v.feature;
    lemma_directions();
    lemma_all_ask(v, 4, c, 3, h, "LONG"@);
    lemma_all_ask(v, 4, c, 3, h, "SHORT"@);
    lemma_rule(3, f, v.score);
    order::lemma_ratio_order(20, 100, 20, 100);
    order::lemma_ratio_order(15, 100, 15, 100);
    order::lemma_product_tells_signs(v.score, f.breakout);
    order::lemma_product_tells_signs(f.flow_60s, f.breakout);
    if !f.breakout.is_nan() {
        laws::lemma_signed(false, f.breakout.magnitude());
    }
}

/// A range is faded: sold near its top and bought near its bottom, while there is no trend, with
/// flow and price already turning inward.
pub proof fn lemma_range_sides(v: MarketView, h: int, c: LabConfig)
    requires
        0 <= h < 4,
    ensures
        ({
            let s = all_signals(v, 4, c);
            let f = v.feature;
            let inward = f.trend_efficiency.le(Num::ratio(25, 100)) && f.flow_15s.times(
                f.range_position,
            ).lt(Num::ratio(10, 100).negated()) && f.acceleration.times(f.range_position).lt(
                Num::zero(),
            );
            let up = asks(s, 4, HORIZONS@[h], "LONG"@);
            let down = asks(s, 4, HORIZONS@[h], "SHORT"@);
            &&& down <==> inward && Num::ratio(75, 100).le(f.range_position)
            &&& up <==> inward && f.range_position.le(Num::ratio(75, 100).negated())
            &&& down ==> Num::zero().lt(f.range_position) && f.flow_15s.lt(Num::zero())
                && f.acceleration.lt(Num::zero())
            &&& up ==> f.range_position.lt(Num::zero()) && Num::zero().lt(f.flow_15s)
                && Num::zero().lt(f.acceleration)
        }),
{
    let f = v.feature;
    lemma_directions();
    lemma_all_ask(v, 4, c, 4, h, "LONG"@);
    lemma_all_ask(v, 4, c, 4, h, "SHORT"@);
    lemma_rule(4, f, v.score);
    order::lemma_ratio_order(75, 100, 75, 100);
    order::lemma_ratio_order(10, 100, 10, 100);
    laws::lemma_signed(true, Num::ratio(10, 100).magnitude());
    lemma_abs(f.range_position, Num::ratio(75, 100));
    order::lemma_product_tells_signs(f.flow_15s, f.range_position);
    order::lemma_product_tells_signs(f.acceleration, f.range_position);
    if Num::zero().lt(f.range_position) || f.range_position.lt(Num::zero()) {
        order::lemma_signum(f.range_position);
        laws::lemma_negated_twice(Num::one());
    }
}

/// Consensus takes the side that the past suggests, and only where the market itself, its trend
/// and the other exchange all lean that way: its score, the fresh score of the other exchange, each
/// by more than a fifth, and the return of five minutes. Nothing less gives a signal, and where all
/// that holds and the replayed entries pass every gate, there is one.
pub proof fn lemma_consensus_sides(v: MarketView, h: int, c: LabConfig)
    requires
        0 <= h < 4,
    ensures
        ({
            let s = all_signals(v, 4, c);
            let past = horizon_evidence(v, h, c);
            let expected = suggested_return(past->0);
            let fifth = Num::ratio(2, 10);
            let steps = HORIZONS@[h] as int / 5;
            let stop = stop_distance(v.feature, steps as i64, v.fee_bps, c);
            let bought = summary(
                labels(
                    v.buckets,
                    past->0,
                    steps,
                    "LONG"@,
                    stop.times(Num::from_int(3)),
                    stop,
                    v.fee_bps,
                    c.slippage_bps,
                ),
            );
            let sold = summary(
                labels(
                    v.buckets,
                    past->0,
                    steps,
                    "SHORT"@,
                    stop.times(Num::from_int(3)),
                    stop,
                    v.fee_bps,
                    c.slippage_bps,
                ),
            );
            let enough = past is Some && past->0.len() >= c.min_analog_samples;
            let leans_up = fifth.lt(v.score) && Num::zero().lt(v.feature.ret_300s) && v.peer_score
                is Some && fifth.lt(v.peer_score->0);
            let leans_down = v.score.lt(fifth.negated()) && v.feature.ret_300s.lt(Num::zero())
                && v.peer_score is Some && v.peer_score->0.lt(fifth.negated());
            let lane = all_lanes(v, 4, c)[6 * h + 5];
            &&& asks(s, 5, HORIZONS@[h], "LONG"@) <==> {
                &&& enough
                &&& !expected.is_nan() && !expected.is_negative()
                &&& leans_up
                &&& bought.samples >= c.min_analog_samples
                &&& c.target_win_rate.le(bought.weighted_strict_win_rate)
                &&& c.target_win_rate.le(
                    Num::from_count(bought.wins as u64).over(
                        Num::from_count(bought.samples as u64),
                    ),
                )
                &&& c.min_win_lower_bound.le(bought.wilson_lower_bound)
                &&& c.min_edge_bps.le(bought.expected_net_bps)
            }
            &&& asks(s, 5, HORIZONS@[h], "SHORT"@) <==> {
                &&& enough
                &&& !expected.is_nan() && expected.is_negative()
                &&& leans_down
                &&& sold.samples >= c.min_analog_samples
                &&& c.target_win_rate.le(sold.weighted_strict_win_rate)
                &&& c.target_win_rate.le(
                    Num::from_count(sold.wins as u64).over(
                        Num::from_count(sold.samples as u64),
                    ),
                )
                &&& c.min_win_lower_bound.le(sold.wilson_lower_bound)
                &&& c.min_edge_bps.le(sold.expected_net_bps)
            }
            &&& lane.reason == Reason::NoAnalogs <==> !enough
            &&& lane.reason == Reason::NoAgreement <==> enough && !(!expected.is_nan()
                && !expected.is_negative() && leans_up) && !(!expected.is_nan()
                && expected.is_negative() && leans_down)
        }),
{
    lemma_directions();
    lemma_all_ask(v, 4, c, 5, h, "LONG"@);
    lemma_all_ask(v, 4, c, 5, h, "SHORT"@);
    lemma_every_lane_is_reported(v, c);
    assert(crate::paper::STRATEGIES@[5].0 == crate::paper::STRATEGIES@[5].0);
    let past = horizon_evidence(v, h, c);
    let expected = suggested_return(past->0);
    order::lemma_ratio_order(2, 10, 2, 10);
    let side = expected.signum();
    if expected.is_nan() {
        lemma_nan_product(v.score, side);
    } else {
        order::lemma_signum(expected);
        lemma_leans(v.score, Num::ratio(2, 10));
        lemma_leans(v.feature.ret_300s, Num::zero());
        if v.peer_score is Some {
            lemma_leans(v.peer_score->0, Num::ratio(2, 10));
        }
    }
}

proof fn lemma_nan_product(a: Num, b: Num)
    requires
        b.is_nan(),
    ensures
        a.times(b).is_nan(),
{
    reveal(Num::spec_times);
}

/// A product with a side compares a number in the direction of that side.
proof fn lemma_leans(x: Num, t: Num)
    requires
        !t.is_nan(),
        !t.is_negative(),
    ensures
        t.lt(x.times(Num::one())) <==> t.lt(x),
        t.lt(x.times(Num::one().negated())) <==> x.lt(t.negated()),
        t == Num::zero() ==> (x.lt(t.negated()) <==> x.lt(t)),
{
    laws::lemma_signed(true, t.magnitude());
    if x.is_nan() {
        reveal(Num::spec_times);
    } else {
        order::lemma_times_one(x);
        laws::lemma_signed(!x.is_negative(), x.magnitude());
    }
}

/// Whether a signal is that of a strategy on a horizon, by their numbers.
pub open spec fn comes_from(s: Signal, v: MarketView, h: int, c: LabConfig) -> bool {
    let consensus = horizon_consensus(v, h, c);
    let side = side_taken(s.number as int, v.feature, v.score, consensus);
    &&& 0 <= h < 4
    &&& s.number < 6
    &&& side is Some
    &&& s == signal_of(
        s.number as int,
        HORIZONS@[h],
        v.score,
        stop_distance(v.feature, (HORIZONS@[h] / 5) as i64, v.fee_bps, c),
        side->0,
        consensus,
    )
}

proof fn lemma_horizon_origin(n: int, v: MarketView, h: int, c: LabConfig)
    requires
        0 <= n <= 6,
        0 <= h < 4,
    ensures
        ({
            let stop = stop_distance(v.feature, (HORIZONS@[h] / 5) as i64, v.fee_bps, c);
            let t = horizon_signals(
                n,
                HORIZONS@[h],
                v.feature,
                v.score,
                stop,
                horizon_consensus(v, h, c),
            );
            forall|i: int| 0 <= i < t.len() ==> comes_from(#[trigger] t[i], v, h, c)
        }),
    decreases n,
{
    if n > 0 {
        lemma_horizon_origin(n - 1, v, h, c);
        let stop = stop_distance(v.feature, (HORIZONS@[h] / 5) as i64, v.fee_bps, c);
        let consensus = horizon_consensus(v, h, c);
        let r = horizon_signals(n - 1, HORIZONS@[h], v.feature, v.score, stop, consensus);
        let t = horizon_signals(n, HORIZONS@[h], v.feature, v.score, stop, consensus);
        assert forall|i: int| 0 <= i < t.len() implies comes_from(#[trigger] t[i], v, h, c) by {
            if i < r.len() {
                assert(t[i] == r[i]);
            }
        }
    }
}

/// Every signal comes from a strategy and a horizon.
pub proof fn lemma_signal_origin(v: MarketView, m: int, c: LabConfig, i: int) -> (h: int)
    requires
        0 <= m <= 4,
        0 <= i < all_signals(v, m, c).len(),
    ensures
        0 <= h < m,
        comes_from(all_signals(v, m, c)[i], v, h, c),
    decreases m,
{
    let r = all_signals(v, m - 1, c);
    lemma_horizon_origin(6, v, m - 1, c);
    if i < r.len() {
        let h = lemma_signal_origin(v, m - 1, c, i);
        assert(all_signals(v, m, c)[i] == r[i]);
        h
    } else {
        let stop = stop_distance(v.feature, (HORIZONS@[m - 1] / 5) as i64, v.fee_bps, c);
        let t = horizon_signals(
            6,
            HORIZONS@[m - 1],
            v.feature,
            v.score,
            stop,
            horizon_consensus(v, m - 1, c),
        );
        assert(all_signals(v, m, c)[i] == t[i - r.len()]);
        m - 1
    }
}

/// What a signal says of itself: its strategy by number and name, its horizon, a stop that is right
/// for this horizon and within bounds, and its score, which the reverse strategy turns round. Only
/// the consensus brings evidence of the past: the rate and the net return of the entries that were
/// replayed on its own side.
pub proof fn lemma_signal_says(v: MarketView, c: LabConfig, i: int)
    requires
        0 <= i < all_signals(v, 4, c).len(),
    ensures
        ({
            let s = all_signals(v, 4, c)[i];
            &&& s.number < 6
            &&& s.strategy == crate::paper::STRATEGIES@[s.number as int].0
            &&& s.horizon == 60 || s.horizon == 300 || s.horizon == 900 || s.horizon == 3600
            &&& s.stop_move == stop_distance(
                v.feature,
                (s.horizon / 5) as i64,
                v.fee_bps,
                c,
            )
            &&& Num::ratio(1, 10_000).le(s.stop_move) && s.stop_move.le(Num::ratio(15, 1_000))
            &&& s.direction@ == "LONG"@ || s.direction@ == "SHORT"@
            &&& s.number == 1 ==> s.score == v.score.negated()
            &&& s.number != 1 ==> s.score == v.score
            &&& s.number < 5 ==> s.analogs is None && s.evidence == Num::zero()
                && s.expected_return == Num::zero()
            &&& s.number == 5 ==> {
                &&& s.analogs is Some
                &&& s.evidence == s.analogs->0.weighted_strict_win_rate
                &&& s.expected_return == s.analogs->0.expected_net_bps.over(
                    Num::from_int(10_000),
                )
            }
        }),
{
    lemma_directions();
    let h = lemma_signal_origin(v, 4, c, i);
    let s = all_signals(v, 4, c)[i];
    lemma_stop_is_far_enough(v.feature, (s.horizon / 5) as i64, v.fee_bps, c);
    assert(HORIZONS@[0] == 60 && HORIZONS@[1] == 300 && HORIZONS@[2] == 900 && HORIZONS@[3]
        == 3600);
}

/// The side of a consensus is one or minus one, and what it was measured by lies on that side.
pub proof fn lemma_consensus_side(v: MarketView, h: int, c: LabConfig)
    requires
        0 <= h < 4,
        horizon_consensus(v, h, c).sign is Some,
    ensures
        ({
            let side = horizon_consensus(v, h, c).sign->0;
            let b = horizon_consensus(v, h, c).analogs->0;
            &&& side == Num::one() || side == Num::one().negated()
            &&& Num::zero().lt(side) <==> side == Num::one()
            &&& horizon_consensus(v, h, c).analogs is Some
            &&& v.peer_score is Some
            &&& Num::ratio(2, 10).lt(v.score.times(side))
            &&& Num::zero().lt(v.feature.ret_300s.times(side))
            &&& Num::ratio(2, 10).lt(v.peer_score->0.times(side))
            &&& b.samples >= c.min_analog_samples
            &&& c.target_win_rate.le(b.weighted_strict_win_rate)
            &&& c.target_win_rate.le(
                Num::from_count(b.wins as u64).over(Num::from_count(b.samples as u64)),
            )
            &&& c.min_win_lower_bound.le(b.wilson_lower_bound)
            &&& c.min_edge_bps.le(b.expected_net_bps)
        }),
{
    let past = horizon_evidence(v, h, c);
    let expected = suggested_return(past->0);
    if expected.is_nan() {
        lemma_nan_product(v.score, expected.signum());
    } else {
        order::lemma_signum(expected);
    }
}

/// What a quote gives to whoever leaves a position: the bid and its size for a long position, the
/// ask and its size for a short one.
pub open spec fn offered(direction: Seq<char>, q: Quote) -> (Num, Num) {
    if direction == "LONG"@ {
        (q.bid, q.bid_qty)
    } else {
        (q.ask, q.ask_qty)
    }
}

/// Whether a fill is at the stop or beyond it: below for a long position, above for a short one.
pub open spec fn beyond_stop(p: PredictionView, fill: Num) -> bool {
    (p.direction == "LONG"@ && fill.le(p.stop_price)) || (p.direction != "LONG"@
        && p.stop_price.le(fill))
}

/// Whether a fill is at the target or beyond it: above for a long position, below for a short one.
pub open spec fn beyond_target(p: PredictionView, fill: Num) -> bool {
    (p.direction == "LONG"@ && p.target_price.le(fill)) || (p.direction != "LONG"@ && fill.le(
        p.target_price,
    ))
}

/// Whether a quote comes while a position lives: after its creation and up to its last moment.
pub open spec fn during(p: PredictionView, q: Quote) -> bool {
    p.created_at < q.ts && q.ts <= p.created_at + p.horizon_secs * 1000
}

/// Whether a quote can be traded at: prices and sizes above zero, not crossed, received at most
/// five seconds after and one second before its event.
pub open spec fn tradable(q: Quote) -> bool {
    &&& Num::zero().lt(q.bid) && q.bid.is_finite()
    &&& Num::zero().lt(q.ask) && q.ask.is_finite()
    &&& Num::zero().lt(q.bid_qty) && q.bid_qty.is_finite()
    &&& Num::zero().lt(q.ask_qty) && q.ask_qty.is_finite()
    &&& q.bid.le(q.ask)
    &&& q.ts - q.event_ts <= 5000
    &&& q.event_ts - q.ts <= 1000
}

/// Why a position was left, as its audit has it.
pub open spec fn exit_code(p: PredictionView) -> Seq<char> {
    p.execution_audit->0.exit->0.code
}

/// Whether the outcome of a position became unknown at a time, for a reason.
pub open spec fn unknown_since(r: PredictionView, at: int, code: Seq<char>) -> bool {
    &&& r.status == "DATA_GAP"@
    &&& r.resolved_at == Some(at as i64)
    &&& r.exit_price is None && r.gross_pnl_bps is None && r.pnl_bps is None
    &&& r.mark_price is None
    &&& r.execution_audit is Some && r.execution_audit->0.exit is Some && exit_code(r) == code
}

/// Whether a position was left at a time and price, for a reason, with the result of that price.
pub open spec fn left(
    r: PredictionView,
    status: Seq<char>,
    at: int,
    price: Num,
    code: Seq<char>,
) -> bool {
    &&& r.status == status
    &&& r.resolved_at == Some(at as i64)
    &&& r.exit_price == Some(price)
    &&& r.gross_pnl_bps == Some(paper::gross_bps(r.direction, r.entry_price, price))
    &&& r.pnl_bps == Some(paper::net_bps(r.direction, r.entry_price, price, r.fee_bps))
    &&& r.execution_audit is Some && r.execution_audit->0.exit is Some && exit_code(r) == code
}

proof fn lemma_one_quote(p: PredictionView, q: Quote, now: i64)
    requires
        p.execution_audit is Some,
    ensures
        advanced(p, seq![q], now, false) == stepped(p, q),
{
    let page = seq![q];
    assert(page[0] == q);
    assert(page.drop_first() =~= Seq::<Quote>::empty());
    if !closes(p, q) {
        assert(walked(stepped(p, q), page.drop_first()) == stepped(p, q));
    }
}

/// A position without audit gets a partial one before anything else, and fares as one that has it.
pub proof fn lemma_audit_comes_first(
    p: PredictionView,
    quotes: Seq<Quote>,
    now: i64,
    drained: bool,
)
    requires
        p.execution_audit is None,
    ensures
        ({
            let begun = PredictionView {
                execution_audit: Some(ExecutionAudit::fresh(p, false, now)),
                ..p
            };
            &&& advanced(p, quotes, now, drained) == advanced(begun, quotes, now, drained)
            &&& !begun.execution_audit->0.complete_from_entry
            &&& begun.execution_audit->0.tracking_started_at == now
            &&& begun.execution_audit->0.quotes_observed == 0
            &&& begun.execution_audit->0.exit is None
        }),
{
}

/// What a quote does to an open position, whatever comes behind it. One before or after its life
/// does nothing. One out of order, one that cannot be traded at and one behind a gap leave the
/// outcome unknown. A tradable one closes the position as a loss where its fill is at the stop or
/// beyond, at that very fill; else as a win where it is at the target or beyond, at the target;
/// either only where the size shown suffices, and without outcome where it does not. Any other
/// leaves the position open, marked at the price offered where the size suffices.
pub proof fn lemma_quote_decides(
    p: PredictionView,
    q: Quote,
    rest: Seq<Quote>,
    now: i64,
    drained: bool,
)
    requires
        p.status == "OPEN"@,
        p.timely(),
        is_moment(q.ts),
        p.execution_audit is Some,
    ensures
        ({
            let r = advanced(p, seq![q] + rest, now, drained);
            let one = advanced(p, seq![q], now, false);
            let on = advanced(one, rest, now, drained);
            let (price, size) = offered(p.direction, q);
            let fill = paper::spec_exit_fill(p.direction, price, p.slippage_bps);
            let enough = p.notional.over(p.entry_price).le(size);
            let stop = beyond_stop(p, fill);
            let target = beyond_target(p, fill);
            let late = q.ts - p.last_quote_ts > p.max_gap_ms;
            &&& same_entry(p, r)
            &&& !during(p, q) ==> r == on && one == (PredictionView { cursor_id: q.id, ..p })
            &&& during(p, q) && q.ts < p.last_quote_ts ==> unknown_since(
                r,
                q.ts as int,
                "quote_out_of_order"@,
            )
            &&& during(p, q) && q.ts >= p.last_quote_ts && !tradable(q) ==> unknown_since(
                r,
                q.ts as int,
                "invalid_or_delayed_quote"@,
            )
            &&& during(p, q) && q.ts >= p.last_quote_ts && tradable(q) && late ==> unknown_since(
                r,
                q.ts as int,
                "quote_gap"@,
            )
            &&& during(p, q) && q.ts >= p.last_quote_ts && tradable(q) && !late ==> {
                &&& (stop || target) && !enough ==> unknown_since(
                    r,
                    q.ts as int,
                    "insufficient_exit_liquidity"@,
                )
                &&& stop && enough ==> left(r, "LOSS"@, q.ts as int, fill, "stop_loss"@)
                &&& !stop && target && enough ==> left(
                    r,
                    "WIN"@,
                    q.ts as int,
                    p.target_price,
                    "take_profit"@,
                )
                &&& !stop && !target ==> {
                    &&& r == on
                    &&& one.status == "OPEN"@
                    &&& one.last_quote_ts == q.ts
                    &&& one.cursor_id == q.id
                    &&& one.mark_price == if enough {
                        Some(price)
                    } else {
                        None
                    }
                    &&& one.resolved_at == p.resolved_at && one.exit_price == p.exit_price
                        && one.pnl_bps == p.pnl_bps
                    &&& same_entry(p, one)
                }
            }
        }),
{
    let page = seq![q];
    assert(page[0] == q);
    assert((page + rest)[0] == q);
    assert((page + rest).drop_first() =~= rest);
    assert(page.drop_first() =~= Seq::<Quote>::empty());
    lemma_pages_give_the_same(p, page, rest, now, drained);
    lemma_step_outcome(p, q);
    lemma_statuses_differ();
    let one = advanced(p, page, now, false);
    lemma_one_quote(p, q, now);
    assert(tradable(q) <==> q.spec_valid());
    if one.status == "OPEN"@ {
        lemma_same_entry_advances(one, rest, now, drained);
    }
}

/// What time does to an open position that has seen every quote. At its last moment or later it is
/// left at the last mark, as an exit there would fill; it stays unknown where the last quote is too
/// old or shows too little. Before that moment it becomes unknown once quotes have stopped for
/// longer than allowed, and is otherwise left alone.
pub proof fn lemma_time_decides(p: PredictionView, now: i64)
    requires
        p.status == "OPEN"@,
        p.timely(),
        p.execution_audit is Some,
    ensures
        ({
            let r = advanced(p, Seq::<Quote>::empty(), now, true);
            let end = p.created_at + p.horizon_secs * 1000;
            &&& advanced(p, Seq::<Quote>::empty(), now, false) == p
            &&& now >= end ==> {
                &&& end - p.last_quote_ts > p.max_gap_ms ==> unknown_since(
                    r,
                    end,
                    "timeout_quote_stale"@,
                )
                &&& end - p.last_quote_ts <= p.max_gap_ms && p.mark_price is Some ==> left(
                    r,
                    "TIMEOUT"@,
                    end,
                    paper::spec_exit_fill(p.direction, p.mark_price->0, p.slippage_bps),
                    "horizon_timeout"@,
                )
                &&& end - p.last_quote_ts <= p.max_gap_ms && p.mark_price is None
                    ==> unknown_since(r, end, "timeout_insufficient_liquidity"@)
            }
            &&& now < end && now - p.last_quote_ts > p.max_gap_ms ==> unknown_since(
                r,
                now as int,
                "feed_stale"@,
            )
            &&& now < end && now - p.last_quote_ts <= p.max_gap_ms ==> r == p
        }),
{
}

/// Whether the mark of a position, if it has one, would fill within its barriers.
pub open spec fn mark_is_inside(p: PredictionView) -> bool {
    p.mark_price is Some ==> {
        let fill = paper::spec_exit_fill(p.direction, p.mark_price->0, p.slippage_bps);
        !beyond_stop(p, fill) && !beyond_target(p, fill)
    }
}

/// A position stays open only between its barriers: where its mark would fill at the stop or the
/// target or beyond, it is open no more. A position with its mark inside is left so by whatever
/// quotes come, or is closed.
pub proof fn lemma_open_means_inside(
    p: PredictionView,
    quotes: Seq<Quote>,
    now: i64,
    drained: bool,
)
    requires
        p.status == "OPEN"@,
        p.timely(),
        p.execution_audit is Some,
        forall|i: int| 0 <= i < quotes.len() ==> is_moment((#[trigger] quotes[i]).ts),
        mark_is_inside(p),
    ensures
        ({
            let r = advanced(p, quotes, now, drained);
            r.status == "OPEN"@ ==> mark_is_inside(r)
        }),
    decreases quotes.len(),
{
    lemma_statuses_differ();
    if quotes.len() == 0 {
        lemma_time_decides(p, now);
        assert(quotes =~= Seq::<Quote>::empty());
    } else {
        let q = quotes[0];
        let rest = quotes.drop_first();
        assert(quotes =~= seq![q] + rest);
        lemma_quote_decides(p, q, rest, now, drained);
        let one = advanced(p, seq![q], now, false);
        lemma_one_quote(p, q, now);
        lemma_step_outcome(p, q);
        if !closes(p, q) {
            assert forall|i: int| 0 <= i < rest.len() implies is_moment(
                (#[trigger] rest[i]).ts,
            ) by {
                assert(rest[i] == quotes[i + 1]);
            }
            lemma_open_means_inside(one, rest, now, drained);
        }
    }
}

/// When strategies are evaluated: on ten minutes of closed windows or more, whose last quote is no
/// older than allowed and a window, with a price in each of the last 61, and a spread within its
/// limit. Each refusal says which of these is the first to fail.
pub proof fn lemma_readiness_tells(s: Seq<Bucket>, at: i64, c: LabConfig, logs: LogReturns)
    ensures
        ({
            let r = readiness(s, at, c, logs);
            let last = s[s.len() - 1];
            let quoted = match last.quote_ts {
                Some(ts) => ts as int,
                None => 0,
            };
            let long = s.len() >= 120;
            let recent = at - quoted <= c.max_quote_age_ms + 5000;
            let spread = last.ask_price->0.minus(last.bid_price->0).over(
                last.ask_price->0.plus(last.bid_price->0).over(Num::from_int(2)),
            ).times(Num::from_int(10_000));
            &&& r == Some(NotReady::ShortHistory) <==> !long
            &&& r == Some(NotReady::StaleFeed) <==> long && !recent
            &&& r is None ==> {
                &&& long && recent
                &&& forall|i: int| s.len() - 61 <= i < s.len() ==> (#[trigger] s[i]).price is Some
                &&& last.bid_price is Some && last.ask_price is Some
                &&& Num::zero().lt(last.bid_price->0)
                &&& last.bid_price->0.le(last.ask_price->0)
                &&& spread.le(c.max_spread_bps)
            }
            &&& r == Some(NotReady::BrokenHistory) ==> long && recent
            &&& r == Some(NotReady::WideSpread) ==> long && recent && !spread.le(c.max_spread_bps)
            &&& long && recent && (exists|i: int|
                s.len() - 61 <= i < s.len() && (#[trigger] s[i]).price is None) ==> r == Some(
                NotReady::BrokenHistory,
            )
        }),
{
}

/// The other exchange has a say only while its own last quote is no older than allowed and a window,
/// and its last 61 windows all have a price.
pub proof fn lemma_peer_is_fresh(
    s: Seq<Bucket>,
    peer: Seq<Bucket>,
    exchange: Exchange,
    at: i64,
    c: LabConfig,
    logs: LogReturns,
    peer_logs: LogReturns,
)
    ensures
        ({
            let v = market_of(s, peer, exchange, at, c, logs, peer_logs);
            let last = peer[peer.len() - 1];
            let quoted = match last.quote_ts {
                Some(ts) => ts as int,
                None => 0,
            };
            &&& v.peer_score is Some ==> {
                &&& peer.len() >= 61
                &&& at - quoted <= c.max_quote_age_ms + 5000
                &&& forall|i: int|
                    peer.len() - 61 <= i < peer.len() ==> (#[trigger] peer[i]).price is Some
                &&& v.peer_score == Some(score_of(feature_of(peer, peer.len() - 1, peer_logs)))
            }
            &&& v.buckets == s
            &&& v.feature == feature_of(s, s.len() - 1, logs)
            &&& v.score == score_of(v.feature)
            &&& exchange == Exchange::Binance ==> v.fee_bps == c.binance_fee_bps
            &&& exchange == Exchange::Bybit ==> v.fee_bps == c.bybit_fee_bps
        }),
{
}

/// A breakout is bought only above everything that the sixty windows before have seen, and sold only
/// below everything.
pub proof fn lemma_breakout_leaves_the_range(
    s: Seq<Bucket>,
    peer: Seq<Bucket>,
    exchange: Exchange,
    at: i64,
    h: int,
    c: LabConfig,
    logs: LogReturns,
    peer_logs: LogReturns,
)
    requires
        0 <= h < 4,
        s.len() > 60,
        Num::zero().lt(s[s.len() - 1].price->0),
        s[s.len() - 1].price->0.is_finite(),
    ensures
        ({
            let v = market_of(s, peer, exchange, at, c, logs, peer_logs);
            let signals = all_signals(v, 4, c);
            let price = s[s.len() - 1].price->0;
            &&& asks(signals, 3, HORIZONS@[h], "LONG"@) ==> forall|i: int|
                s.len() - 61 <= i < s.len() - 1 && (#[trigger] s[i]).high_price is Some
                    ==> s[i].high_price->0.is_nan() || s[i].high_price->0.lt(price)
            &&& asks(signals, 3, HORIZONS@[h], "SHORT"@) ==> forall|i: int|
                s.len() - 61 <= i < s.len() - 1 && (#[trigger] s[i]).low_price is Some
                    ==> s[i].low_price->0.is_nan() || price.lt(s[i].low_price->0)
        }),
{
    let v = market_of(s, peer, exchange, at, c, logs, peer_logs);
    lemma_breakout_sides(v, h, c);
    lemma_breakout_tells_the_range(s, s.len() - 1, logs);
}

/// What an audit makes of a quote: an exit with a result exactly where the quote follows without a
/// gap, can be traded at and shows the size that is needed, and then the result of the very fill
/// that an exit there would have. It is counted, as one without size where only that is missing,
/// and kept as the last one, as the first one where there was none, and as the best or the worst
/// where its result is beyond theirs. The longest wait for a quote is kept too.
pub proof fn lemma_audit_of_a_quote(p: PredictionView, q: Quote, continuous: bool)
    requires
        p.execution_audit is Some,
        countable(p.execution_audit, 1),
        is_moment(p.last_quote_ts),
        is_moment(q.ts),
    ensures
        ({
            let a = p.execution_audit->0;
            let r = observed(p, q, continuous);
            let b = r.execution_audit->0;
            let (price, size) = offered(p.direction, q);
            let enough = p.notional.over(p.entry_price).le(size);
            let fill = paper::spec_exit_fill(p.direction, price, p.slippage_bps);
            let mark = b.last->0;
            let waited = q.ts - p.last_quote_ts;
            &&& r == (PredictionView { execution_audit: r.execution_audit, ..p })
            &&& b.last is Some && mark.quote == q
            &&& mark.executable <==> continuous && tradable(q) && enough
            &&& mark.executable ==> mark.gross_bps == Some(
                paper::gross_bps(p.direction, p.entry_price, fill),
            ) && mark.net_bps == Some(
                paper::net_bps(p.direction, p.entry_price, fill, p.fee_bps),
            )
            &&& !mark.executable ==> mark.gross_bps is None && mark.net_bps is None
            &&& b.quotes_observed == a.quotes_observed + 1
            &&& b.executable_quotes == a.executable_quotes + (if mark.executable {
                1int
            } else {
                0int
            })
            &&& b.illiquid_quotes == a.illiquid_quotes + (if tradable(q) && !enough {
                1int
            } else {
                0int
            })
            &&& b.first == if a.first is Some {
                a.first
            } else {
                b.last
            }
            &&& b.max_observed_gap_ms >= a.max_observed_gap_ms
            &&& b.max_observed_gap_ms >= waited
            &&& b.max_observed_gap_ms == a.max_observed_gap_ms || b.max_observed_gap_ms == waited
                || (b.max_observed_gap_ms == 0 && waited <= 0)
            &&& b.best == a.best || b.best == b.last
            &&& b.worst == a.worst || b.worst == b.last
            &&& !mark.executable ==> b.best == a.best && b.worst == a.worst
            &&& b.exit == a.exit && b.complete_from_entry == a.complete_from_entry
            &&& b.tracking_started_at == a.tracking_started_at
        }),
{
    assert(tradable(q) <==> q.spec_valid());
}

} // verus!
