//! The six strategies, evaluated on closed windows.

use super::analog::{
    barrier_stats, evidence, labels, lemma_analogs_are_disjoint, lemma_analogs_take_room,
    pattern_forecast, suffices, summary, weighted_returns, weights, AnalogForecast, BarrierStats,
    Neighbor,
};
use super::bucket::{
    build_buckets, first_window, last_window, point_views, window, windows, Bucket,
};
use super::feature::{
    feature_at, feature_of, has_feature, microstructure_score, score_of, summable, Feature,
    LogReturns,
};
use super::series::spec_total;
use crate::model::{is_moment, Exchange, MarketPoint, PointView};
use crate::num::Num;
use crate::paper::{LabConfig, HORIZONS, STRATEGIES};
use vstd::prelude::*;

verus! {

/// Why a lane did or did not give a signal.
#[derive(Debug, Clone, Copy, PartialEq, Eq)]
pub enum Reason {
    /// The market is not in the state that the strategy trades in.
    NoSetup,
    /// There are not enough independent historical analogs.
    NoAnalogs,
    /// The exchanges and the trend do not agree.
    NoAgreement,
    /// What the analogs showed: samples, net target hits and their lower bound in percent, and
    /// the net edge in basis points.
    Analogs { samples: usize, win_pct: Num, lower_pct: Num, edge_bps: Num },
    /// The rule of a strategy held, with its score in the direction of the trade.
    Rule { strategy: &'static str, score: Num },
}

/// A trade that a strategy asks for.
#[derive(Debug, Clone, Copy)]
pub struct Signal {
    pub number: usize,
    pub strategy: &'static str,
    pub horizon: i64,
    pub direction: &'static str,
    pub stop_move: Num,
    pub evidence: Num,
    pub score: Num,
    pub expected_return: Num,
    pub reason: Reason,
    pub analogs: Option<BarrierStats>,
}

/// What the evaluation of a lane found.
#[derive(Debug, Clone, Copy)]
pub struct Lane {
    pub strategy: &'static str,
    pub horizon_secs: i64,
    pub reason: Reason,
}

/// How a measured value must lie to its threshold.
#[derive(Debug, Clone, Copy, PartialEq, Eq, Structural)]
pub enum Bound {
    Above,
    AtLeast,
    Below,
    AtMost,
}

/// A condition of a rule, as it was measured.
#[derive(Debug, Clone, Copy)]
pub struct RuleCheck {
    pub name: &'static str,
    pub value: Num,
    pub bound: Bound,
    pub threshold: Num,
}

impl RuleCheck {
    /// Whether the condition holds.
    pub open spec fn spec_holds(self) -> bool {
        match self.bound {
            Bound::Above => self.threshold.lt(self.value),
            Bound::AtLeast => self.threshold.le(self.value),
            Bound::Below => self.value.lt(self.threshold),
            Bound::AtMost => self.value.le(self.threshold),
        }
    }

    /// Whether the condition holds.
    #[verifier::when_used_as_spec(spec_holds)]
    pub fn holds(self) -> (r: bool)
        ensures
            r == self.spec_holds(),
    {
        match self.bound {
            Bound::Above => self.threshold.lt(self.value),
            Bound::AtLeast => self.threshold.le(self.value),
            Bound::Below => self.value.lt(self.threshold),
            Bound::AtMost => self.value.le(self.threshold),
        }
    }
}

/// A condition of a rule.
pub open spec fn spec_check(
    name: &'static str,
    value: Num,
    bound: Bound,
    threshold: Num,
) -> RuleCheck {
    RuleCheck { name, value, bound, threshold }
}

/// A condition of a rule.
#[verifier::when_used_as_spec(spec_check)]
pub fn check(name: &'static str, value: Num, bound: Bound, threshold: Num) -> (r: RuleCheck)
    ensures
        r == spec_check(name, value, bound, threshold),
{
    RuleCheck { name, value, bound, threshold }
}

/// The conditions of the rule of a strategy, by its number. The last strategy has none of its
/// own: it asks the past.
pub open spec fn rule_of(strategy: int, f: Feature, score: Num) -> Seq<RuleCheck> {
    let zero = Num::zero();
    if strategy == 0 || strategy == 1 {
        seq![
            check("abs_score", score.abs(), Bound::AtLeast, Num::ratio(30, 100)),
            check("score_x_flow_60s", score.times(f.flow_60s), Bound::Above, Num::ratio(2, 100)),
            check(
                "score_x_book_imbalance_60s",
                score.times(f.book_imbalance_60s),
                Bound::Above,
                Num::ratio(1, 100),
            ),
            check("score_x_ret_15s", score.times(f.ret_15s), Bound::Above, zero),
        ]
    } else if strategy == 2 {
        seq![
            check("trend_efficiency", f.trend_efficiency, Bound::AtLeast, Num::ratio(30, 100)),
            check("ret_300s_x_ret_60s", f.ret_300s.times(f.ret_60s), Bound::Above, zero),
            check("ret_15s_x_ret_300s", f.ret_15s.times(f.ret_300s), Bound::Below, zero),
            check("turn_x_ret_300s", f.turn.times(f.ret_300s), Bound::Above, zero),
            check("flow_300s_x_ret_300s", f.flow_300s.times(f.ret_300s), Bound::Above, zero),
        ]
    } else if strategy == 3 {
        seq![
            check("abs_breakout", f.breakout.abs(), Bound::Above, zero),
            check("volume_ratio", f.volume_ratio, Bound::AtLeast, Num::ratio(125, 100)),
            check(
                "trade_intensity_ratio",
                f.trade_intensity_ratio,
                Bound::AtLeast,
                Num::ratio(110, 100),
            ),
            check("score_x_breakout", score.times(f.breakout), Bound::Above, Num::ratio(20, 100)),
            check(
                "flow_60s_x_breakout",
                f.flow_60s.times(f.breakout),
                Bound::Above,
                Num::ratio(15, 100),
            ),
        ]
    } else if strategy == 4 {
        seq![
            check("trend_efficiency", f.trend_efficiency, Bound::AtMost, Num::ratio(25, 100)),
            check(
                "abs_range_position",
                f.range_position.abs(),
                Bound::AtLeast,
                Num::ratio(75, 100),
            ),
            check(
                "flow_15s_x_range_position",
                f.flow_15s.times(f.range_position),
                Bound::Below,
                Num::ratio(10, 100).negated(),
            ),
            check(
                "acceleration_x_range_position",
                f.acceleration.times(f.range_position),
                Bound::Below,
                zero,
            ),
        ]
    } else {
        Seq::empty()
    }
}

/// The conditions of the rule of a strategy, by its number.
pub fn rule_checks(strategy: usize, f: &Feature, score: Num) -> (r: Vec<RuleCheck>)
    ensures
        r@ == rule_of(strategy as int, *f, score),
{
    let zero = Num::zero();
    let mut v: Vec<RuleCheck> = Vec::new();
    if strategy == 0 || strategy == 1 {
        v.push(check("abs_score", score.abs(), Bound::AtLeast, Num::ratio(30, 100)));
        v.push(
            check("score_x_flow_60s", score.times(f.flow_60s), Bound::Above, Num::ratio(2, 100)),
        );
        v.push(
            check(
                "score_x_book_imbalance_60s",
                score.times(f.book_imbalance_60s),
                Bound::Above,
                Num::ratio(1, 100),
            ),
        );
        v.push(check("score_x_ret_15s", score.times(f.ret_15s), Bound::Above, zero));
    } else if strategy == 2 {
        v.push(
            check("trend_efficiency", f.trend_efficiency, Bound::AtLeast, Num::ratio(30, 100)),
        );
        v.push(check("ret_300s_x_ret_60s", f.ret_300s.times(f.ret_60s), Bound::Above, zero));
        v.push(check("ret_15s_x_ret_300s", f.ret_15s.times(f.ret_300s), Bound::Below, zero));
        v.push(check("turn_x_ret_300s", f.turn.times(f.ret_300s), Bound::Above, zero));
        v.push(check("flow_300s_x_ret_300s", f.flow_300s.times(f.ret_300s), Bound::Above, zero));
    } else if strategy == 3 {
        v.push(check("abs_breakout", f.breakout.abs(), Bound::Above, zero));
        v.push(check("volume_ratio", f.volume_ratio, Bound::AtLeast, Num::ratio(125, 100)));
        v.push(
            check(
                "trade_intensity_ratio",
                f.trade_intensity_ratio,
                Bound::AtLeast,
                Num::ratio(110, 100),
            ),
        );
        v.push(
            check("score_x_breakout", score.times(f.breakout), Bound::Above, Num::ratio(20, 100)),
        );
        v.push(
            check(
                "flow_60s_x_breakout",
                f.flow_60s.times(f.breakout),
                Bound::Above,
                Num::ratio(15, 100),
            ),
        );
    } else if strategy == 4 {
        v.push(check("trend_efficiency", f.trend_efficiency, Bound::AtMost, Num::ratio(25, 100)));
        v.push(
            check(
                "abs_range_position",
                f.range_position.abs(),
                Bound::AtLeast,
                Num::ratio(75, 100),
            ),
        );
        v.push(
            check(
                "flow_15s_x_range_position",
                f.flow_15s.times(f.range_position),
                Bound::Below,
                Num::ratio(10, 100).negated(),
            ),
        );
        v.push(
            check(
                "acceleration_x_range_position",
                f.acceleration.times(f.range_position),
                Bound::Below,
                zero,
            ),
        );
    }
    assert(v@ =~= rule_of(strategy as int, *f, score));
    v
}

/// Whether all conditions of a rule hold.
pub open spec fn all_hold(s: Seq<RuleCheck>) -> bool {
    forall|i: int| 0 <= i < s.len() ==> (#[trigger] s[i]).holds()
}

/// The side that a rule takes, where its conditions hold: one for long, minus one for short.
pub open spec fn rule_sign(strategy: int, f: Feature, score: Num) -> Option<Num> {
    if strategy < 0 || strategy > 4 || !all_hold(rule_of(strategy, f, score)) {
        None
    } else if strategy == 0 {
        Some(score.signum())
    } else if strategy == 1 {
        Some(score.signum().negated())
    } else if strategy == 2 {
        Some(f.ret_300s.signum())
    } else if strategy == 3 {
        Some(f.breakout)
    } else {
        Some(f.range_position.signum().negated())
    }
}

/// The reverse strategy takes the opposite side at the very setups that the follow strategy takes.
pub proof fn lemma_reverse_is_opposite(f: Feature, score: Num)
    ensures
        match rule_sign(0, f, score) {
            Some(side) => rule_sign(1, f, score) == Some(side.negated()),
            None => rule_sign(1, f, score) is None,
        },
{
}

/// The side that a rule takes, where its conditions hold.
fn side_of_rule(strategy: usize, f: &Feature, score: Num) -> (r: Option<Num>)
    ensures
        r == rule_sign(strategy as int, *f, score),
{
    if strategy > 4 {
        return None;
    }
    let checks = rule_checks(strategy, f, score);
    for i in 0..checks.len()
        invariant
            checks@ == rule_of(strategy as int, *f, score),
            forall|j: int| 0 <= j < i ==> (#[trigger] checks@[j]).holds(),
    {
        if !checks[i].holds() {
            assert(!checks@[i as int].holds());
            return None;
        }
    }
    if strategy == 0 {
        Some(score.signum())
    } else if strategy == 1 {
        Some(score.signum().negated())
    } else if strategy == 2 {
        Some(f.ret_300s.signum())
    } else if strategy == 3 {
        Some(f.breakout)
    } else {
        Some(f.range_position.signum().negated())
    }
}

/// The state of the market that all lanes are judged by.
pub struct Market<'a> {
    pub buckets: &'a Vec<Bucket>,
    pub feature: Feature,
    pub score: Num,
    pub peer_score: Option<Num>,
    pub fee_bps: Num,
}

/// How far the stop lies from the entry, as a share of the price: by the volatility over the
/// horizon, and far enough for the target to exceed the costs by a margin.
pub open spec fn stop_distance(f: Feature, steps: i64, fee_bps: Num, c: LabConfig) -> Num {
    let sigma = Num::ratio(65, 100).times(f.volatility_60s).plus(
        Num::ratio(35, 100).times(f.volatility_300s),
    ).larger(Num::ratio(5, 1_000_000));
    let costs = Num::from_int(2).times(fee_bps).plus(
        Num::from_int(2).times(c.slippage_bps),
    ).plus(f.spread_bps);
    sigma.times(Num::from_int(steps).root()).times(Num::ratio(55, 100)).over(
        Num::from_int(3),
    ).larger(sigma.times(Num::ratio(135, 100))).larger(
        costs.plus(c.min_edge_bps).times(Num::ratio(125, 100)).over(Num::from_int(30_000)),
    ).larger(f.spread_bps.times(Num::from_int(4)).over(Num::from_int(10_000))).within(
        Num::ratio(1, 10_000),
        Num::ratio(15, 1_000),
    )
}

/// How far the stop lies from the entry, as a share of the price.
fn stop_move_for(f: &Feature, steps: i64, fee_bps: Num, c: &LabConfig) -> (r: Num)
    ensures
        r == stop_distance(*f, steps, fee_bps, *c),
{
    let sigma = Num::ratio(65, 100).times(f.volatility_60s).plus(
        Num::ratio(35, 100).times(f.volatility_300s),
    ).larger(Num::ratio(5, 1_000_000));
    // The reward must exceed round-trip costs by a margin.
    let costs = Num::from_int(2).times(fee_bps).plus(
        Num::from_int(2).times(c.slippage_bps),
    ).plus(f.spread_bps);
    sigma.times(Num::from_int(steps).root()).times(Num::ratio(55, 100)).over(
        Num::from_int(3),
    ).larger(sigma.times(Num::ratio(135, 100))).larger(
        costs.plus(c.min_edge_bps).times(Num::ratio(125, 100)).over(Num::from_int(30_000)),
    ).larger(f.spread_bps.times(Num::from_int(4)).over(Num::from_int(10_000))).within(
        Num::ratio(1, 10_000),
        Num::ratio(15, 1_000),
    )
}

/// What the consensus strategy found.
#[derive(Debug, Clone, Copy)]
pub struct Consensus {
    pub reason: Reason,
    pub evidence: Num,
    pub expected: Num,
    pub sign: Option<Num>,
    pub analogs: Option<BarrierStats>,
}

/// Whether the evidence of analogs passes every gate.
pub open spec fn convincing(b: BarrierStats, c: LabConfig) -> bool {
    &&& b.samples >= c.min_analog_samples
    &&& c.target_win_rate.le(b.weighted_strict_win_rate)
    &&& c.target_win_rate.le(
        Num::from_count(b.wins as u64).over(Num::from_count(b.samples as u64)),
    )
    &&& c.min_win_lower_bound.le(b.wilson_lower_bound)
    &&& c.min_edge_bps.le(b.expected_net_bps)
}

/// Whether both exchanges and the trend agree with a side.
pub open spec fn agreed(f: Feature, score: Num, peer_score: Option<Num>, side: Num) -> bool {
    &&& Num::ratio(2, 10).lt(score.times(side))
    &&& Num::zero().lt(f.ret_300s.times(side))
    &&& peer_score is Some && Num::ratio(2, 10).lt(peer_score->0.times(side))
}

/// What the consensus strategy finds: enough analogs, then agreement, then convincing evidence.
pub open spec fn consensus_of(
    buckets: Seq<Bucket>,
    f: Feature,
    score: Num,
    peer_score: Option<Num>,
    fee_bps: Num,
    expected_return: Num,
    neighbors: Option<Seq<Neighbor>>,
    steps: int,
    stop_move: Num,
    c: LabConfig,
) -> Consensus {
    let side = expected_return.signum();
    let none = Consensus {
        reason: Reason::NoAnalogs,
        evidence: Num::zero(),
        expected: Num::zero(),
        sign: None,
        analogs: None,
    };
    if neighbors is None || neighbors->0.len() < c.min_analog_samples {
        none
    } else if !agreed(f, score, peer_score, side) {
        Consensus { reason: Reason::NoAgreement, ..none }
    } else {
        let b = summary(
            labels(
                buckets,
                neighbors->0,
                steps,
                if Num::zero().lt(side) {
                    "LONG"@
                } else {
                    "SHORT"@
                },
                stop_move.times(Num::from_int(3)),
                stop_move,
                fee_bps,
                c.slippage_bps,
            ),
        );
        Consensus {
            reason: Reason::Analogs {
                samples: b.samples,
                win_pct: b.weighted_strict_win_rate.times(Num::from_int(100)),
                lower_pct: b.wilson_lower_bound.times(Num::from_int(100)),
                edge_bps: b.expected_net_bps,
            },
            evidence: b.weighted_strict_win_rate,
            expected: b.expected_net_bps.over(Num::from_int(10_000)),
            sign: if convincing(b, c) {
                Some(side)
            } else {
                None
            },
            analogs: Some(b),
        }
    }
}

/// The evidence of a forecast.
pub open spec fn forecast_neighbors(analog: Option<AnalogForecast>) -> Option<Seq<Neighbor>> {
    match analog {
        Some(a) => Some(a.neighbors@),
        None => None,
    }
}

/// What the consensus strategy finds.
fn seek_consensus(
    m: &Market,
    analog: &Option<AnalogForecast>,
    steps: usize,
    stop_move: Num,
    c: &LabConfig,
) -> (r: Consensus)
    requires
        analog is Some ==> forall|i: int|
            0 <= i < analog->0.neighbors@.len() ==> (
            #[trigger] analog->0.neighbors@[i]).index < m.buckets@.len(),
    ensures
        r == consensus_of(
            m.buckets@,
            m.feature,
            m.score,
            m.peer_score,
            m.fee_bps,
            analog->0.expected_return,
            forecast_neighbors(*analog),
            steps as int,
            stop_move,
            *c,
        ),
{
    let none = Consensus {
        reason: Reason::NoAnalogs,
        evidence: Num::zero(),
        expected: Num::zero(),
        sign: None,
        analogs: None,
    };
    match analog {
        None => none,
        Some(a) => {
            if a.neighbors.len() < c.min_analog_samples {
                return none;
            }
            let side = a.expected_return.signum();
            let waiting = Consensus { reason: Reason::NoAgreement, ..none };
            if !Num::ratio(2, 10).lt(m.score.times(side)) || !Num::zero().lt(
                m.feature.ret_300s.times(side),
            ) {
                return waiting;
            }
            match m.peer_score {
                Some(p) => {
                    if !Num::ratio(2, 10).lt(p.times(side)) {
                        return waiting;
                    }
                },
                None => {
                    return waiting;
                },
            }
            let direction = if Num::zero().lt(side) {
                "LONG"
            } else {
                "SHORT"
            };
            let b = barrier_stats(
                m.buckets,
                &a.neighbors,
                steps,
                direction,
                stop_move.times(Num::from_int(3)),
                stop_move,
                m.fee_bps,
                c.slippage_bps,
            );
            let passes = b.samples >= c.min_analog_samples && c.target_win_rate.le(
                b.weighted_strict_win_rate,
            ) && c.target_win_rate.le(
                Num::from_count(b.wins as u64).over(Num::from_count(b.samples as u64)),
            ) && c.min_win_lower_bound.le(b.wilson_lower_bound) && c.min_edge_bps.le(
                b.expected_net_bps,
            );
            Consensus {
                reason: Reason::Analogs {
                    samples: b.samples,
                    win_pct: b.weighted_strict_win_rate.times(Num::from_int(100)),
                    lower_pct: b.wilson_lower_bound.times(Num::from_int(100)),
                    edge_bps: b.expected_net_bps,
                },
                evidence: b.weighted_strict_win_rate,
                expected: b.expected_net_bps.over(Num::from_int(10_000)),
                sign: if passes {
                    Some(side)
                } else {
                    None
                },
                analogs: Some(b),
            }
        },
    }
}

/// The signal of a side that a strategy takes.
pub open spec fn signal_of(
    strategy: int,
    horizon: i64,
    score: Num,
    stop_move: Num,
    sign: Num,
    consensus: Consensus,
) -> Signal {
    Signal {
        number: strategy as usize,
        strategy: STRATEGIES@[strategy].0,
        horizon,
        direction: if Num::zero().lt(sign) {
            "LONG"
        } else {
            "SHORT"
        },
        stop_move,
        evidence: if strategy == 5 {
            consensus.evidence
        } else {
            Num::zero()
        },
        score: if strategy == 1 {
            score.negated()
        } else {
            score
        },
        expected_return: if strategy == 5 {
            consensus.expected
        } else {
            Num::zero()
        },
        reason: if strategy == 5 {
            consensus.reason
        } else {
            Reason::Rule { strategy: STRATEGIES@[strategy].0, score: score.times(sign) }
        },
        analogs: if strategy == 5 {
            consensus.analogs
        } else {
            None
        },
    }
}

/// The side that a strategy takes.
pub open spec fn side_taken(
    strategy: int,
    f: Feature,
    score: Num,
    consensus: Consensus,
) -> Option<Num> {
    if strategy == 5 {
        consensus.sign
    } else {
        rule_sign(strategy, f, score)
    }
}

/// What the evaluation of a lane found.
pub open spec fn lane_of(strategy: int, horizon: i64, consensus: Consensus) -> Lane {
    Lane {
        strategy: STRATEGIES@[strategy].0,
        horizon_secs: horizon,
        reason: if strategy == 5 {
            consensus.reason
        } else {
            Reason::NoSetup
        },
    }
}

/// The lanes of a horizon, up to strategy `n`.
pub open spec fn horizon_lanes(n: int, horizon: i64, consensus: Consensus) -> Seq<Lane> {
    Seq::new(n as nat, |k: int| lane_of(k, horizon, consensus))
}

/// The signals of a horizon, up to strategy `n`.
pub open spec fn horizon_signals(
    n: int,
    horizon: i64,
    f: Feature,
    score: Num,
    stop_move: Num,
    consensus: Consensus,
) -> Seq<Signal>
    decreases n,
{
    if n <= 0 {
        Seq::empty()
    } else {
        let rest = horizon_signals(n - 1, horizon, f, score, stop_move, consensus);
        match side_taken(n - 1, f, score, consensus) {
            Some(sign) => rest.push(
                signal_of(n - 1, horizon, score, stop_move, sign, consensus),
            ),
            None => rest,
        }
    }
}

/// What is known about the market when signals are looked for.
pub struct MarketView {
    pub buckets: Seq<Bucket>,
    pub features: Seq<Option<Feature>>,
    pub feature: Feature,
    pub score: Num,
    pub peer_score: Option<Num>,
    pub fee_bps: Num,
    pub logs: LogReturns,
}

/// The logarithms of the returns over a horizon, by its number.
pub open spec fn horizon_logs(logs: LogReturns, h: int) -> Seq<Num> {
    if h == 0 {
        logs.over_12@
    } else if h == 1 {
        logs.over_60@
    } else if h == 2 {
        logs.over_180@
    } else {
        logs.over_720@
    }
}

/// The evidence of the past for a horizon, where it suffices.
pub open spec fn horizon_evidence(v: MarketView, h: int, c: LabConfig) -> Option<Seq<Neighbor>> {
    let steps = HORIZONS@[h] as int / 5;
    let i = v.buckets.len() - 1;
    let s = evidence(
        v.buckets,
        v.features,
        i,
        steps,
        v.feature,
        c.analog_neighbors as int,
        horizon_logs(v.logs, h),
    );
    if suffices(s, i - steps - 60) {
        Some(s)
    } else {
        None
    }
}

/// The return that evidence suggests.
pub open spec fn suggested_return(s: Seq<Neighbor>) -> Num {
    spec_total(weighted_returns(s)).over(spec_total(weights(s)))
}

/// What the consensus strategy finds for a horizon.
pub open spec fn horizon_consensus(v: MarketView, h: int, c: LabConfig) -> Consensus {
    let steps = HORIZONS@[h] as int / 5;
    let s = horizon_evidence(v, h, c);
    consensus_of(
        v.buckets,
        v.feature,
        v.score,
        v.peer_score,
        v.fee_bps,
        suggested_return(s->0),
        s,
        steps,
        stop_distance(v.feature, steps as i64, v.fee_bps, c),
        c,
    )
}

/// The lanes of the first `h` horizons.
pub open spec fn all_lanes(v: MarketView, h: int, c: LabConfig) -> Seq<Lane>
    decreases h,
{
    if h <= 0 {
        Seq::empty()
    } else {
        all_lanes(v, h - 1, c) + horizon_lanes(
            6,
            HORIZONS@[h - 1],
            horizon_consensus(v, h - 1, c),
        )
    }
}

/// The signals of the first `h` horizons.
pub open spec fn all_signals(v: MarketView, h: int, c: LabConfig) -> Seq<Signal>
    decreases h,
{
    if h <= 0 {
        Seq::empty()
    } else {
        all_signals(v, h - 1, c) + horizon_signals(
            6,
            HORIZONS@[h - 1],
            v.feature,
            v.score,
            stop_distance(v.feature, (HORIZONS@[h - 1] / 5) as i64, v.fee_bps, c),
            horizon_consensus(v, h - 1, c),
        )
    }
}

/// How many points come before the first that is not older than `cutoff`.
pub open spec fn closed_count(points: Seq<PointView>, cutoff: i64) -> nat
    decreases points.len(),
{
    if points.len() == 0 || points[0].ts >= cutoff {
        0
    } else {
        1 + closed_count(points.drop_first(), cutoff)
    }
}

/// The points of closed windows.
pub open spec fn closed_points(points: Seq<PointView>, at: i64) -> Seq<PointView> {
    points.take(closed_count(points, window(at)) as int)
}

/// The windows of points that are closed at a time.
pub open spec fn closed_windows(points: Seq<PointView>, at: i64, c: LabConfig) -> Seq<Bucket> {
    windows(closed_points(points, at), c.max_gap_ms)
}

/// The age of the last quote of a window.
pub open spec fn quote_age(b: Bucket, at: i64) -> int {
    at - match b.quote_ts {
        Some(ts) => ts as int,
        None => 0,
    }
}

/// Whether a market feed is fresh enough.
pub open spec fn fresh(s: Seq<Bucket>, at: i64, c: LabConfig) -> bool {
    s.len() > 0 && quote_age(s.last(), at) <= c.max_quote_age_ms + 5000
}

/// The state of the other exchange.
#[derive(Debug, Clone, Copy, PartialEq, Eq, Structural)]
pub struct Peer {
    pub quote_ts: Option<i64>,
    pub feature: Feature,
    pub score: Num,
}

/// The state of the other exchange, if its feed is fresh and complete.
pub open spec fn peer_state(peer: Seq<Bucket>, at: i64, c: LabConfig, logs: LogReturns) -> Option<
    Peer,
> {
    if fresh(peer, at, c) && has_feature(peer, peer.len() - 1) {
        let f = feature_of(peer, peer.len() - 1, logs);
        Some(Peer { quote_ts: peer.last().quote_ts, feature: f, score: score_of(f) })
    } else {
        None
    }
}

/// Where the other exchange leans.
pub open spec fn peer_lean(peer: Option<Peer>) -> Option<Num> {
    match peer {
        Some(p) => Some(p.score),
        None => None,
    }
}

/// The features of all windows, where they have one.
pub open spec fn all_features(s: Seq<Bucket>, logs: LogReturns) -> Seq<Option<Feature>> {
    Seq::new(
        s.len(),
        |n: int|
            if has_feature(s, n) {
                Some(feature_of(s, n, logs))
            } else {
                None
            },
    )
}

/// Why no strategy could be evaluated.
#[derive(Debug, Clone, Copy, PartialEq, Eq, Structural)]
pub enum NotReady {
    ShortHistory,
    StaleFeed,
    BrokenHistory,
    WideSpread,
}

impl NotReady {
    /// What to tell whoever watches.
    pub open spec fn spec_message(self) -> Seq<char> {
        match self {
            NotReady::ShortHistory => "Waiting for 10 minutes of fresh quote/trade history"@,
            NotReady::StaleFeed => "Market feed is stale; no new paper entries"@,
            NotReady::BrokenHistory =>
            "Recent history contains missing or invalid quotes; waiting for continuity"@,
            NotReady::WideSpread => "Spread exceeds the configured limit"@,
        }
    }

    /// What to tell whoever watches.
    pub fn message(self) -> (r: &'static str)
        ensures
            r@ == self.spec_message(),
    {
        match self {
            NotReady::ShortHistory => "Waiting for 10 minutes of fresh quote/trade history",
            NotReady::StaleFeed => "Market feed is stale; no new paper entries",
            NotReady::BrokenHistory =>
            "Recent history contains missing or invalid quotes; waiting for continuity",
            NotReady::WideSpread => "Spread exceeds the configured limit",
        }
    }
}

/// Whether strategies can be evaluated on closed windows: ten minutes of history, a fresh feed,
/// five minutes without a break, and a spread within its limit.
pub open spec fn readiness(
    s: Seq<Bucket>,
    at: i64,
    c: LabConfig,
    logs: LogReturns,
) -> Option<NotReady> {
    if s.len() < 120 {
        Some(NotReady::ShortHistory)
    } else if !fresh(s, at, c) {
        Some(NotReady::StaleFeed)
    } else if !has_feature(s, s.len() - 1) {
        Some(NotReady::BrokenHistory)
    } else if !feature_of(s, s.len() - 1, logs).spread_bps.le(c.max_spread_bps) {
        Some(NotReady::WideSpread)
    } else {
        None
    }
}

/// What the strategies found.
#[derive(Debug, Clone)]
pub struct Evaluation {
    pub evaluated_at: i64,
    pub history_minutes: Num,
    pub history_truncated: bool,
    pub window_ts: i64,
    pub quote_ts: Option<i64>,
    pub feature: Feature,
    pub score: Num,
    pub peer: Option<Peer>,
    pub lanes: Vec<Lane>,
    pub signals: Vec<Signal>,
}

/// The market as closed windows show it.
pub open spec fn market_of(
    s: Seq<Bucket>,
    peer: Seq<Bucket>,
    exchange: Exchange,
    at: i64,
    c: LabConfig,
    logs: LogReturns,
    peer_logs: LogReturns,
) -> MarketView {
    let f = feature_of(s, s.len() - 1, logs);
    MarketView {
        buckets: s,
        features: all_features(s, logs),
        feature: f,
        score: score_of(f),
        peer_score: peer_lean(peer_state(peer, at, c, peer_logs)),
        fee_bps: c.fee(exchange),
        logs,
    }
}

/// Whether an evaluation is that of a market on closed windows.
pub open spec fn evaluates(
    e: Evaluation,
    s: Seq<Bucket>,
    peer: Option<Peer>,
    v: MarketView,
    at: i64,
    truncated: bool,
    c: LabConfig,
) -> bool {
    &&& e.evaluated_at == at
    &&& e.history_minutes == Num::from_int((s.last().ts - s[0].ts) as i64).over(
        Num::from_int(60_000),
    )
    &&& e.history_truncated == truncated
    &&& e.window_ts == s.last().ts
    &&& e.quote_ts == s.last().quote_ts
    &&& e.feature == v.feature
    &&& e.score == v.score
    &&& e.peer == peer
    &&& e.lanes@ == all_lanes(v, 4, c)
    &&& e.signals@ == all_signals(v, 4, c)
}

/// How many points come before the first that is not older than `cutoff`.
fn count_closed(points: &[MarketPoint], cutoff: i64) -> (r: usize)
    ensures
        r <= points@.len(),
        r == closed_count(point_views(points@), cutoff),
{
    let ghost all = point_views(points@);
    let mut n: usize = 0;
    assert(all.skip(0) =~= all);
    while n < points.len() && points[n].ts < cutoff
        invariant
            n <= points@.len(),
            all == point_views(points@),
            closed_count(all, cutoff) == n + closed_count(all.skip(n as int), cutoff),
        decreases points@.len() - n,
    {
        assert(all.skip(n as int)[0] == points@[n as int]@);
        assert(all.skip(n as int).drop_first() =~= all.skip(n + 1));
        n += 1;
    }
    if n < points.len() {
        assert(all.skip(n as int)[0] == points@[n as int]@);
    }
    n
}

/// Whether points can be evaluated: not too many to count, and every time within bounds.
pub open spec fn spec_evaluable(points: Seq<MarketPoint>) -> bool {
    &&& points.len() <= 0x3FF_FFFF_FFFF_FFFF
    &&& forall|i: int| 0 <= i < points.len() ==> is_moment((#[trigger] points[i]).ts)
}

/// Whether points can be evaluated.
pub fn evaluable(points: &[MarketPoint]) -> (r: bool)
    ensures
        r == spec_evaluable(points@),
{
    if points.len() as u64 > 0x3FF_FFFF_FFFF_FFFF {
        return false;
    }
    for n in 0..points.len()
        invariant
            forall|i: int| 0 <= i < n ==> is_moment((#[trigger] points@[i]).ts),
    {
        if !is_moment(points[n].ts) {
            assert(!is_moment(points@[n as int].ts));
            return false;
        }
    }
    true
}

/// The windows of points that are closed at a time. A window that is still forming gives no
/// signal.
pub fn closed_buckets(points: &[MarketPoint], at: i64, c: &LabConfig) -> (r: Vec<Bucket>)
    requires
        is_moment(at),
        spec_evaluable(points@),
    ensures
        r@ == closed_windows(point_views(points@), at, *c),
        summable(r@),
        forall|i: int| 0 <= i < r@.len() ==> is_bounded(#[trigger] r@[i]),
{
    let cutoff = window(at);
    let n = count_closed(points, cutoff);
    let closed = vstd::slice::slice_subrange(points, 0, n);
    let ghost all = point_views(points@);
    assert(point_views(closed@) =~= all.take(n as int));
    assert forall|i: int| 0 <= i < closed@.len() implies is_moment(
        (#[trigger] closed@[i]).ts,
    ) by {
        assert(closed@[i] == points@[i]);
    }
    let r = build_buckets(closed, c.max_gap_ms);
    proof {
        super::bucket::lemma_windows_bounded(point_views(closed@), c.max_gap_ms);
    }
    r
}

/// Whether the times of a window can be computed with.
pub open spec fn is_bounded(b: Bucket) -> bool {
    is_moment(b.ts) && (b.quote_ts is Some ==> is_moment(b.quote_ts->0))
}

/// The age of the last quote of a window.
fn age_of(b: &Bucket, at: i64) -> (r: i64)
    requires
        is_bounded(*b),
        is_moment(at),
    ensures
        r == quote_age(*b, at),
{
    match b.quote_ts {
        Some(ts) => at - ts,
        None => at,
    }
}

/// Whether a market feed is fresh enough.
fn is_fresh(buckets: &Vec<Bucket>, at: i64, c: &LabConfig) -> (r: bool)
    requires
        is_moment(at),
        forall|i: int| 0 <= i < buckets@.len() ==> is_bounded(#[trigger] buckets@[i]),
    ensures
        r == fresh(buckets@, at, *c),
{
    if buckets.len() == 0 {
        return false;
    }
    let last = buckets.len() - 1;
    assert(is_bounded(buckets@[last as int]));
    age_of(&buckets[last], at) as i128 <= c.max_quote_age_ms as i128 + 5000
}

/// The features of all windows, where they have one.
fn features_of(buckets: &Vec<Bucket>, logs: &LogReturns) -> (r: Vec<Option<Feature>>)
    requires
        summable(buckets@),
    ensures
        r@ == all_features(buckets@, *logs),
{
    let mut features: Vec<Option<Feature>> = Vec::new();
    for n in 0..buckets.len()
        invariant
            summable(buckets@),
            features@ == all_features(buckets@, *logs).take(n as int),
    {
        features.push(feature_at(buckets, n, logs));
        assert(features@ =~= all_features(buckets@, *logs).take(n + 1));
    }
    assert(all_features(buckets@, *logs).take(buckets@.len() as int) =~= all_features(
        buckets@,
        *logs,
    ));
    features
}

/// The lanes and signals of a horizon.
fn evaluate_horizon(
    m: &Market,
    horizon: i64,
    stop_move: Num,
    consensus: Consensus,
    lanes: &mut Vec<Lane>,
    signals: &mut Vec<Signal>,
)
    ensures
        final(lanes)@ == old(lanes)@ + horizon_lanes(6, horizon, consensus),
        final(signals)@ == old(signals)@ + horizon_signals(
            6,
            horizon,
            m.feature,
            m.score,
            stop_move,
            consensus,
        ),
{
    let ghost lanes_before = lanes@;
    let ghost signals_before = signals@;
    assert(lanes@ =~= lanes_before + horizon_lanes(0, horizon, consensus));
    assert(signals@ =~= signals_before + horizon_signals(
        0,
        horizon,
        m.feature,
        m.score,
        stop_move,
        consensus,
    ));
    for k in 0..6usize
        invariant
            lanes@ == lanes_before + horizon_lanes(k as int, horizon, consensus),
            signals@ == signals_before + horizon_signals(
                k as int,
                horizon,
                m.feature,
                m.score,
                stop_move,
                consensus,
            ),
    {
        let strategy = STRATEGIES[k].0;
        let last = k == 5;
        lanes.push(
            Lane {
                strategy,
                horizon_secs: horizon,
                reason: if last {
                    consensus.reason
                } else {
                    Reason::NoSetup
                },
            },
        );
        assert(lanes@ =~= lanes_before + horizon_lanes(k + 1, horizon, consensus));
        let side = if last {
            consensus.sign
        } else {
            side_of_rule(k, &m.feature, m.score)
        };
        let ghost rest = horizon_signals(
            k as int,
            horizon,
            m.feature,
            m.score,
            stop_move,
            consensus,
        );
        if let Some(sign) = side {
            let signal = Signal {
                number: k,
                strategy,
                horizon,
                direction: if Num::zero().lt(sign) {
                    "LONG"
                } else {
                    "SHORT"
                },
                stop_move,
                evidence: if last {
                    consensus.evidence
                } else {
                    Num::zero()
                },
                score: if k == 1 {
                    m.score.negated()
                } else {
                    m.score
                },
                expected_return: if last {
                    consensus.expected
                } else {
                    Num::zero()
                },
                reason: if last {
                    consensus.reason
                } else {
                    Reason::Rule { strategy, score: m.score.times(sign) }
                },
                analogs: if last {
                    consensus.analogs
                } else {
                    None
                },
            };
            assert(signal == signal_of(k as int, horizon, m.score, stop_move, sign, consensus));
            signals.push(signal);
            assert(signals@ =~= signals_before + rest.push(signal));
        }
        assert(signals@ =~= signals_before + horizon_signals(
            k + 1,
            horizon,
            m.feature,
            m.score,
            stop_move,
            consensus,
        ));
    }
}

/// The signals of all strategies and horizons, on the windows that are closed at `at`, or why
/// none could be looked for. The logarithms of the price ratios of the windows, and of those of
/// the other exchange, are given.
pub fn build_signals(
    points: &[MarketPoint],
    peer_points: &[MarketPoint],
    exchange: Exchange,
    at: i64,
    c: &LabConfig,
    logs: &LogReturns,
    peer_logs: &LogReturns,
) -> (r: Result<Evaluation, NotReady>)
    requires
        is_moment(at),
        spec_evaluable(points@),
        spec_evaluable(peer_points@),
    ensures
        ({
            let s = closed_windows(point_views(points@), at, *c);
            let peer = closed_windows(point_views(peer_points@), at, *c);
            match r {
                Ok(e) => readiness(s, at, *c, *logs) is None && evaluates(
                    e,
                    s,
                    peer_state(peer, at, *c, *peer_logs),
                    market_of(s, peer, exchange, at, *c, *logs, *peer_logs),
                    at,
                    points@.len() >= c.max_points,
                    *c,
                ),
                Err(reason) => readiness(s, at, *c, *logs) == Some(reason),
            }
        }),
{
    let buckets = closed_buckets(points, at, c);
    let ghost s = buckets@;
    if buckets.len() < 120 {
        return Err(NotReady::ShortHistory);
    }
    let i = buckets.len() - 1;
    if !is_fresh(&buckets, at, c) {
        return Err(NotReady::StaleFeed);
    }
    let feature = match feature_at(&buckets, i, logs) {
        Some(f) => f,
        None => {
            return Err(NotReady::BrokenHistory);
        },
    };
    if !feature.spread_bps.le(c.max_spread_bps) {
        return Err(NotReady::WideSpread);
    }
    let peer_buckets = closed_buckets(peer_points, at, c);
    let ghost peer = peer_buckets@;
    let peer_now = if is_fresh(&peer_buckets, at, c) {
        let last = peer_buckets.len() - 1;
        match feature_at(&peer_buckets, last, peer_logs) {
            Some(f) => Some(
                Peer {
                    quote_ts: peer_buckets[last].quote_ts,
                    feature: f,
                    score: microstructure_score(&f),
                },
            ),
            None => None,
        }
    } else {
        None
    };
    let peer_score = match &peer_now {
        Some(p) => Some(p.score),
        None => None,
    };
    let score = microstructure_score(&feature);
    let features = features_of(&buckets, logs);
    let fee_bps = c.fee(exchange);
    let m = Market { buckets: &buckets, feature, score, peer_score, fee_bps };
    let ghost v = market_of(s, peer, exchange, at, *c, *logs, *peer_logs);
    let mut lanes: Vec<Lane> = Vec::new();
    let mut signals: Vec<Signal> = Vec::new();
    assert(lanes@ =~= all_lanes(v, 0, *c));
    assert(signals@ =~= all_signals(v, 0, *c));
    for h in 0..4usize
        invariant
            i == buckets@.len() - 1,
            s == buckets@,
            120 <= s.len(),
            m.buckets@ == s,
            m.feature == v.feature,
            m.score == v.score,
            m.peer_score == v.peer_score,
            m.fee_bps == v.fee_bps,
            v.buckets == s,
            v.features == features@,
            v.logs == *logs,
            feature == v.feature,
            features@.len() == s.len(),
            lanes@ == all_lanes(v, h as int, *c),
            signals@ == all_signals(v, h as int, *c),
    {
        let horizon: i64 = HORIZONS[h];
        let steps: usize = if h == 0 {
            12
        } else if h == 1 {
            60
        } else if h == 2 {
            180
        } else {
            720
        };
        assert(steps == HORIZONS@[h as int] as int / 5);
        let stop_move = stop_move_for(&feature, steps as i64, m.fee_bps, c);
        let future = if h == 0 {
            &logs.over_12
        } else if h == 1 {
            &logs.over_60
        } else if h == 2 {
            &logs.over_180
        } else {
            &logs.over_720
        };
        assert(future@ == horizon_logs(*logs, h as int));
        let analog = pattern_forecast(
            &buckets,
            &features,
            i,
            steps,
            &feature,
            c.analog_neighbors,
            future,
        );
        proof {
            lemma_analogs_are_disjoint(
                s,
                features@,
                i as int,
                steps as int,
                feature,
                c.analog_neighbors as int,
                future@,
            );
            if analog is Some {
                assert forall|k: int| 0 <= k < analog->0.neighbors@.len() implies (
                #[trigger] analog->0.neighbors@[k]).index < s.len() by {}
            }
        }
        let consensus = seek_consensus(&m, &analog, steps, stop_move, c);
        assert(forecast_neighbors(analog) == horizon_evidence(v, h as int, *c));
        assert(consensus == horizon_consensus(v, h as int, *c));
        evaluate_horizon(&m, horizon, stop_move, consensus, &mut lanes, &mut signals);
    }
    assert(is_bounded(s[i as int]));
    assert(is_bounded(s[0]));
    Ok(
        Evaluation {
            evaluated_at: at,
            history_minutes: Num::from_int(buckets[i].ts - buckets[0].ts).over(
                Num::from_int(60_000),
            ),
            history_truncated: points.len() as i128 >= c.max_points as i128,
            window_ts: buckets[i].ts,
            quote_ts: buckets[i].quote_ts,
            feature,
            score,
            peer: peer_now,
            lanes,
            signals,
        },
    )
}

/// Points that are not older than the cutoff do not count.
proof fn lemma_closed_prefix(points: Seq<PointView>, later: Seq<PointView>, cutoff: i64)
    requires
        forall|i: int| 0 <= i < later.len() ==> (#[trigger] later[i]).ts >= cutoff,
    ensures
        closed_count(points + later, cutoff) == closed_count(points, cutoff),
        closed_count(points, cutoff) <= points.len(),
    decreases points.len(),
{
    let both = points + later;
    if points.len() == 0 {
        assert(both =~= later);
        if later.len() > 0 {
            assert(later[0].ts >= cutoff);
        }
    } else {
        assert(both[0] == points[0]);
        assert(both.drop_first() =~= points.drop_first() + later);
        lemma_closed_prefix(points.drop_first(), later, cutoff);
    }
}

/// Nothing of the window that is still forming, and nothing of the future, changes what an
/// evaluation finds: not whether it is possible, and none of its lanes and signals. What comes
/// later on either exchange changes neither.
pub proof fn lemma_future_does_not_matter(
    points: Seq<PointView>,
    later: Seq<PointView>,
    peer_points: Seq<PointView>,
    peer_later: Seq<PointView>,
    exchange: Exchange,
    at: i64,
    c: LabConfig,
    logs: LogReturns,
    peer_logs: LogReturns,
)
    requires
        forall|i: int| 0 <= i < later.len() ==> (#[trigger] later[i]).ts >= window(at),
        forall|i: int| 0 <= i < peer_later.len() ==> (#[trigger] peer_later[i]).ts >= window(at),
    ensures
        ({
            let now = closed_windows(points, at, c);
            let seen = closed_windows(points + later, at, c);
            let peer_now = closed_windows(peer_points, at, c);
            let peer_seen = closed_windows(peer_points + peer_later, at, c);
            let v = market_of(now, peer_now, exchange, at, c, logs, peer_logs);
            let w = market_of(seen, peer_seen, exchange, at, c, logs, peer_logs);
            &&& seen == now
            &&& peer_seen == peer_now
            &&& readiness(seen, at, c, logs) == readiness(now, at, c, logs)
            &&& all_lanes(w, 4, c) == all_lanes(v, 4, c)
            &&& all_signals(w, 4, c) == all_signals(v, 4, c)
        }),
{
    lemma_closed_windows_stay(points, later, at, c);
    lemma_closed_windows_stay(peer_points, peer_later, at, c);
}

proof fn lemma_closed_windows_stay(
    points: Seq<PointView>,
    later: Seq<PointView>,
    at: i64,
    c: LabConfig,
)
    requires
        forall|i: int| 0 <= i < later.len() ==> (#[trigger] later[i]).ts >= window(at),
    ensures
        closed_windows(points + later, at, c) == closed_windows(points, at, c),
{
    lemma_closed_prefix(points, later, window(at));
    let n = closed_count(points, window(at)) as int;
    assert((points + later).take(n) =~= points.take(n));
}

proof fn lemma_lanes(v: MarketView, h: int, c: LabConfig)
    requires
        0 <= h <= 4,
    ensures
        all_lanes(v, h, c).len() == 6 * h,
        forall|j: int, k: int|
            0 <= j < h && 0 <= k < 6 ==> all_lanes(v, h, c)[6 * j + k] == #[trigger] lane_of(
                k,
                HORIZONS@[j],
                horizon_consensus(v, j, c),
            ),
    decreases h,
{
    if h > 0 {
        lemma_lanes(v, h - 1, c);
        let r = all_lanes(v, h - 1, c);
        let t = horizon_lanes(6, HORIZONS@[h - 1], horizon_consensus(v, h - 1, c));
        assert forall|j: int, k: int| 0 <= j < h && 0 <= k < 6 implies (r + t)[6 * j + k]
            == #[trigger] lane_of(k, HORIZONS@[j], horizon_consensus(v, j, c)) by {
            if j < h - 1 {
                assert((r + t)[6 * j + k] == r[6 * j + k]);
            } else {
                assert((r + t)[6 * j + k] == t[k]);
            }
        }
    }
}

/// Every evaluation reports on all lanes: on each of four horizons, in their order, one lane for
/// each of six strategies, in theirs.
pub proof fn lemma_every_lane_is_reported(v: MarketView, c: LabConfig)
    ensures
        all_lanes(v, 4, c).len() == 24,
        forall|h: int, k: int|
            0 <= h < 4 && 0 <= k < 6 ==> {
                let lane = all_lanes(v, 4, c)[6 * h + k];
                &&& lane.strategy == (#[trigger] STRATEGIES@[k]).0
                &&& lane.horizon_secs == #[trigger] HORIZONS@[h]
                &&& lane == lane_of(k, HORIZONS@[h], horizon_consensus(v, h, c))
            },
{
    lemma_lanes(v, 4, c);
    assert forall|h: int, k: int| 0 <= h < 4 && 0 <= k < 6 implies {
        let lane = all_lanes(v, 4, c)[6 * h + k];
        &&& lane.strategy == (#[trigger] STRATEGIES@[k]).0
        &&& lane.horizon_secs == #[trigger] HORIZONS@[h]
        &&& lane == lane_of(k, HORIZONS@[h], horizon_consensus(v, h, c))
    } by {
        let lane = lane_of(k, HORIZONS@[h], horizon_consensus(v, h, c));
        assert(all_lanes(v, 4, c)[6 * h + k] == lane);
    }
}

proof fn lemma_closed_points(points: Seq<PointView>, cutoff: i64)
    ensures
        closed_count(points, cutoff) <= points.len(),
        forall|i: int|
            0 <= i < closed_count(points, cutoff) ==> (#[trigger] points[i]).ts < cutoff,
    decreases points.len(),
{
    if points.len() > 0 && points[0].ts < cutoff {
        lemma_closed_points(points.drop_first(), cutoff);
        assert forall|i: int| 0 <= i < closed_count(points, cutoff) implies (
        #[trigger] points[i]).ts < cutoff by {
            if i > 0 {
                assert(points[i] == points.drop_first()[i - 1]);
            }
        }
    }
}

/// The windows of points from `since` on that are closed at `at` lie between those two.
proof fn lemma_closed_span(points: Seq<PointView>, since: i64, at: i64, c: LabConfig)
    requires
        -0x3000_0000_0000_0000 <= since,
        is_moment(at),
        forall|i: int| 0 <= i < points.len() ==> (#[trigger] points[i]).ts >= since,
    ensures
        closed_windows(points, at, c).len() > 0 ==> 5000 * (closed_windows(points, at, c).len()
            - 1) <= window(at) - window(since),
{
    let s = closed_points(points, at);
    lemma_closed_points(points, window(at));
    if s.len() > 0 {
        lemma_span(s, since, window(at));
    }
}

proof fn lemma_span(s: Seq<PointView>, since: i64, until: i64)
    requires
        s.len() > 0,
        -0x3000_0000_0000_0000 <= since,
        until as int % 5000 == 0,
        -0x2000_0000_0000_0000 <= until <= 0x2000_0000_0000_0000,
        forall|i: int| 0 <= i < s.len() ==> since <= (#[trigger] s[i]).ts < until,
    ensures
        window(since) <= first_window(s) <= last_window(s) <= until,
    decreases s.len(),
{
    assert(since <= s[s.len() - 1].ts < until);
    if s.len() > 1 {
        let rest = s.drop_last();
        assert forall|i: int| 0 <= i < rest.len() implies since <= (#[trigger] rest[i]).ts
            < until by {
            assert(rest[i] == s[i]);
        }
        lemma_span(rest, since, until);
    }
}

/// The lane of the consensus strategy at the longest horizon waits while the history is no longer
/// than a day: at most 22 analogs of an hour fit into it apart from each other, and more are asked
/// for.
pub proof fn lemma_hour_waits_within_a_day(
    points: Seq<PointView>,
    peer: Seq<Bucket>,
    exchange: Exchange,
    at: i64,
    c: LabConfig,
    logs: LogReturns,
    peer_logs: LogReturns,
)
    requires
        is_moment(at),
        0 <= c.lookback_hours <= 24,
        c.min_analog_samples >= 23,
        forall|i: int|
            0 <= i < points.len() ==> (#[trigger] points[i]).ts >= at - c.lookback_hours
                * 3_600_000,
    ensures
        ({
            let s = closed_windows(points, at, c);
            let v = market_of(s, peer, exchange, at, c, logs, peer_logs);
            let found = evidence(
                s,
                v.features,
                s.len() - 1,
                720,
                v.feature,
                c.analog_neighbors as int,
                logs.over_720@,
            );
            &&& found.len() <= 22
            &&& horizon_consensus(v, 3, c).sign is None
            &&& horizon_consensus(v, 3, c).reason == Reason::NoAnalogs
        }),
{
    let s = closed_windows(points, at, c);
    let v = market_of(s, peer, exchange, at, c, logs, peer_logs);
    let since = (at - c.lookback_hours * 3_600_000) as i64;
    lemma_closed_span(points, since, at, c);
    assert(window(at) - window(since) <= 86_400_000);
    assert(s.len() <= 17_281);
    lemma_analogs_take_room(
        s,
        v.features,
        s.len() - 1,
        720,
        v.feature,
        c.analog_neighbors as int,
        logs.over_720@,
    );
    assert(HORIZONS@[3] == 3600);
}

/// Whether a signal has what its strategy asks for: every condition of its rule, or convincing
/// analogs and another exchange that agrees.
pub open spec fn earned(s: Signal, v: MarketView, c: LabConfig) -> bool {
    &&& s.number < 6
    &&& s.strategy == STRATEGIES@[s.number as int].0
    &&& s.direction@ == "LONG"@ || s.direction@ == "SHORT"@
    &&& s.number < 5 ==> all_hold(rule_of(s.number as int, v.feature, v.score))
    &&& s.number == 5 ==> {
        &&& s.analogs is Some
        &&& convincing(s.analogs->0, c)
        &&& v.peer_score is Some
    }
}

/// Whether no two signals are of the same lane.
pub open spec fn one_per_lane(s: Seq<Signal>) -> bool {
    forall|i: int, j: int|
        0 <= i < j < s.len() ==> (#[trigger] s[i]).number != (#[trigger] s[j]).number
            || s[i].horizon != s[j].horizon
}

proof fn lemma_horizon_signals(n: int, h: int, stop_move: Num, v: MarketView, c: LabConfig)
    requires
        0 <= n <= 6,
        0 <= h < 4,
    ensures
        ({
            let t = horizon_signals(
                n,
                HORIZONS@[h],
                v.feature,
                v.score,
                stop_move,
                horizon_consensus(v, h, c),
            );
            &&& t.len() <= n
            &&& forall|i: int|
                0 <= i < t.len() ==> {
                    &&& earned(#[trigger] t[i], v, c)
                    &&& t[i].horizon == HORIZONS@[h]
                    &&& t[i].number < n
                }
            &&& one_per_lane(t)
        }),
    decreases n,
{
    if n > 0 {
        lemma_horizon_signals(n - 1, h, stop_move, v, c);
        let consensus = horizon_consensus(v, h, c);
        let r = horizon_signals(n - 1, HORIZONS@[h], v.feature, v.score, stop_move, consensus);
        let t = horizon_signals(n, HORIZONS@[h], v.feature, v.score, stop_move, consensus);
        assert forall|i: int| 0 <= i < t.len() implies {
            &&& earned(#[trigger] t[i], v, c)
            &&& t[i].horizon == HORIZONS@[h]
            &&& t[i].number < n
        } by {
            if i < r.len() {
                assert(t[i] == r[i]);
            }
        }
        assert forall|i: int, j: int| 0 <= i < j < t.len() implies (#[trigger] t[i]).number != (
        #[trigger] t[j]).number || t[i].horizon != t[j].horizon by {
            assert(t[i] == r[i]);
            if j < r.len() {
                assert(t[j] == r[j]);
            } else {
                assert(r[i].number < n - 1);
            }
        }
    }
}

/// No trade is forced: a signal comes only where its strategy has all that it asks for. In
/// particular the other exchange confirms nothing while its own feed is stale or broken. Each
/// lane gives at most one signal.
pub proof fn lemma_signals_are_earned(v: MarketView, h: int, c: LabConfig)
    requires
        0 <= h <= 4,
    ensures
        all_signals(v, h, c).len() <= 6 * h,
        forall|i: int| 0 <= i < all_signals(v, h, c).len() ==> earned(
            #[trigger] all_signals(v, h, c)[i],
            v,
            c,
        ),
        forall|i: int|
            0 <= i < all_signals(v, h, c).len() ==> exists|k: int|
                0 <= k < h && (#[trigger] all_signals(v, h, c)[i]).horizon
                    == #[trigger] HORIZONS@[k],
        one_per_lane(all_signals(v, h, c)),
    decreases h,
{
    if h > 0 {
        lemma_signals_are_earned(v, h - 1, c);
        let stop_move = stop_distance(
            v.feature,
            (HORIZONS@[h - 1] / 5) as i64,
            v.fee_bps,
            c,
        );
        lemma_horizon_signals(6, h - 1, stop_move, v, c);
        let r = all_signals(v, h - 1, c);
        let t = horizon_signals(
            6,
            HORIZONS@[h - 1],
            v.feature,
            v.score,
            stop_move,
            horizon_consensus(v, h - 1, c),
        );
        let all = all_signals(v, h, c);
        assert(all == r + t);
        assert forall|i: int| 0 <= i < all.len() implies earned(#[trigger] all[i], v, c) by {
            if i < r.len() {
                assert(all[i] == r[i]);
            } else {
                assert(all[i] == t[i - r.len()]);
            }
        }
        assert forall|i: int| 0 <= i < all.len() implies exists|k: int|
            0 <= k < h && (#[trigger] all[i]).horizon == #[trigger] HORIZONS@[k] by {
            if i < r.len() {
                assert(all[i] == r[i]);
                let k = choose|k: int| 0 <= k < h - 1 && r[i].horizon == #[trigger] HORIZONS@[k];
                assert(all[i].horizon == HORIZONS@[k]);
            } else {
                assert(all[i] == t[i - r.len()]);
                assert(all[i].horizon == HORIZONS@[h - 1]);
            }
        }
        assert forall|i: int, j: int| 0 <= i < j < all.len() implies (#[trigger] all[i]).number
            != (#[trigger] all[j]).number || all[i].horizon != all[j].horizon by {
            if j < r.len() {
                assert(all[i] == r[i] && all[j] == r[j]);
            } else if i >= r.len() {
                assert(all[i] == t[i - r.len()] && all[j] == t[j - r.len()]);
            } else {
                assert(all[i] == r[i] && all[j] == t[j - r.len()]);
                let k = choose|k: int| 0 <= k < h - 1 && r[i].horizon == #[trigger] HORIZONS@[k];
                assert(HORIZONS@[0] == 60 && HORIZONS@[1] == 300 && HORIZONS@[2] == 900
                    && HORIZONS@[3] == 3600);
            }
        }
    }
}

/// Every point before the window that is forming counts, and nothing of that window or later: of
/// points in order of time, all those and only those that are older than its start.
pub proof fn lemma_closed_points_are_those_before(points: Seq<PointView>, at: i64)
    requires
        forall|i: int, j: int|
            0 <= i < j < points.len() ==> (#[trigger] points[i]).ts <= (#[trigger] points[j]).ts,
    ensures
        ({
            let s = closed_points(points, at);
            &&& s.len() <= points.len()
            &&& forall|i: int| 0 <= i < s.len() ==> #[trigger] s[i] == points[i] && s[i].ts
                < window(at)
            &&& forall|i: int|
                s.len() <= i < points.len() ==> (#[trigger] points[i]).ts >= window(at)
        }),
{
    lemma_closed_points(points, window(at));
    lemma_closed_stops(points, window(at));
    let n = closed_count(points, window(at)) as int;
    assert forall|i: int| n <= i < points.len() implies (#[trigger] points[i]).ts >= window(
        at,
    ) by {
        if i > n {
            assert(points[n].ts <= points[i].ts);
        }
    }
}

proof fn lemma_closed_stops(points: Seq<PointView>, cutoff: i64)
    ensures
        closed_count(points, cutoff) < points.len() ==> points[closed_count(
            points,
            cutoff,
        ) as int].ts >= cutoff,
    decreases points.len(),
{
    if points.len() > 0 && points[0].ts < cutoff {
        lemma_closed_stops(points.drop_first(), cutoff);
    }
}

} // verus!
