use market_lab::analysis::analog::Neighbor;
use market_lab::analysis::bucket::Bucket;
use market_lab::analysis::feature::{feature_distance, price_ratios, Feature, LogReturns};
use market_lab::analysis::lanes::{
    diagnostics, failed_diagnostics, history_since, idle_diagnostics, peer_since,
};
use market_lab::analysis::signal::{closed_buckets, rule_checks, Evaluation, NotReady, Reason};
use market_lab::analysis::{
    barrier_stats, build_buckets, build_signals, feature_at, microstructure_score,
    pattern_forecast,
};
use market_lab::model::{Exchange, MarketPoint};
use market_lab::num::Num;
use market_lab::paper::{LabConfig, HORIZONS, STRATEGIES};

fn num(x: f64) -> Num {
    Num { bits: x.to_bits() }
}

fn val(x: Num) -> f64 {
    f64::from_bits(x.bits)
}

fn point(ts: i64, price: f64) -> MarketPoint {
    MarketPoint {
        kind: "book_ticker".into(),
        ts,
        qty: None,
        side: None,
        bid_price: Some(num(price - 0.005)),
        ask_price: Some(num(price + 0.005)),
        bid_qty: Some(num(200.)),
        ask_qty: Some(num(40.)),
    }
}

fn trade(ts: i64) -> MarketPoint {
    MarketPoint {
        kind: "trade".into(),
        ts,
        qty: Some(num(3.)),
        side: Some("BUY".into()),
        bid_price: None,
        ask_price: None,
        bid_qty: None,
        ask_qty: None,
    }
}

fn logarithms(buckets: &Vec<Bucket>, lag: usize) -> Vec<Num> {
    price_ratios(buckets, lag)
        .into_iter()
        .map(|ratio| num(ratio.map_or(0., |r| val(r).ln())))
        .collect()
}

fn log_returns(buckets: &Vec<Bucket>) -> LogReturns {
    LogReturns {
        over_1: logarithms(buckets, 1),
        over_3: logarithms(buckets, 3),
        over_12: logarithms(buckets, 12),
        over_60: logarithms(buckets, 60),
        over_180: logarithms(buckets, 180),
        over_720: logarithms(buckets, 720),
    }
}

fn evaluate(points: &[MarketPoint], at: i64) -> Result<Evaluation, NotReady> {
    let c = LabConfig::default();
    let logs = log_returns(&closed_buckets(points, at, &c));
    build_signals(points, points, Exchange::Binance, at, &c, &logs, &logs)
}

/// A minute-long rise under steady buying, one quote and one trade a second.
fn rising_market(seconds: i64) -> Vec<MarketPoint> {
    let mut points = Vec::new();
    for n in 0..seconds {
        points.push(point(n * 1000, 100. + n as f64 / 500.));
        points.push(trade(n * 1000));
    }
    points
}

#[test]
fn missing_history_is_not_filled_indefinitely() {
    let buckets = build_buckets(&[point(0, 100.), point(60000, 101.)], 15000);
    assert_eq!(buckets.len(), 13);
    assert!(buckets[6].price.is_none());
}

#[test]
fn zero_or_crossed_book_is_not_a_free_spread() {
    let mut p = point(1000, 100.);
    p.ask_price = Some(num(90.));
    assert!(build_buckets(&[p], 15000)[0].price.is_none());
}

#[test]
fn analogs_have_disjoint_feature_and_outcome_windows() {
    let points: Vec<MarketPoint> = (0..3000)
        .map(|n| point(n * 5000, 100. + (n as f64 * 0.01).sin()))
        .collect();
    let buckets = build_buckets(&points, 15000);
    let logs = log_returns(&buckets);
    let features: Vec<Option<Feature>> = (0..buckets.len())
        .map(|i| feature_at(&buckets, i, &logs))
        .collect();
    let current = features[2999].unwrap();
    let future = logarithms(&buckets, 60);
    let a = pattern_forecast(&buckets, &features, 2999, 60, &current, 80, &future).unwrap();
    assert!(!a.neighbors.is_empty());
    for left in &a.neighbors {
        assert!(left.index + 60 < 2999 - 60);
        for right in &a.neighbors {
            assert!(left.index == right.index || left.index.abs_diff(right.index) >= 120);
        }
    }
}

#[test]
fn ambiguous_analog_bar_is_a_cost_aware_loss() {
    let mut buckets = build_buckets(&[point(0, 100.), point(5000, 100.)], 15000);
    buckets[1].bid_high = Some(num(104.));
    buckets[1].bid_low = Some(num(98.));
    let n = vec![Neighbor {
        index: 0,
        future_return: num(0.),
        weight: num(1.),
    }];
    let b = barrier_stats(&buckets, &n, 1, "LONG", num(0.03), num(0.01), num(10.), num(1.));
    assert_eq!(b.losses, 1);
    assert_eq!(b.wins, 0);
    assert!(val(b.expected_net_bps) < 0.);
}

#[test]
fn incomplete_historical_path_is_not_an_analog_win() {
    let buckets = build_buckets(&[point(0, 100.), point(60000, 104.)], 15000);
    let n = vec![Neighbor {
        index: 0,
        future_return: num(0.04),
        weight: num(1.),
    }];
    let b = barrier_stats(&buckets, &n, 12, "LONG", num(0.03), num(0.01), num(10.), num(1.));
    assert_eq!(b.samples, 0);
}

#[test]
fn partial_or_future_buckets_do_not_change_the_signal() {
    let at = 655000;
    let mut points: Vec<MarketPoint> = (0..655)
        .map(|n| point(n * 1000, 100. + n as f64 * 0.002))
        .collect();
    let a = evaluate(&points, at).unwrap();
    points.push(point(at + 1000, 10000.));
    let b = evaluate(&points, at).unwrap();
    let shape = |e: Evaluation| {
        e.signals
            .into_iter()
            .map(|s| (s.strategy, s.horizon, s.direction, s.stop_move))
            .collect::<Vec<_>>()
    };
    assert_eq!(shape(a), shape(b));
}

#[test]
fn follow_and_reverse_take_opposite_sides_on_every_horizon() {
    let e = evaluate(&rising_market(650), 650_000).unwrap();
    assert_eq!(e.lanes.len(), 24);
    assert_eq!(e.signals.len(), 8);
    for horizon in [60, 300, 900, 3600] {
        let of = |strategy: &str| {
            e.signals
                .iter()
                .find(|s| s.strategy == strategy && s.horizon == horizon)
                .unwrap()
        };
        assert_eq!(of("flow_follow_v3").direction, "LONG");
        assert_eq!(of("flow_reverse_v3").direction, "SHORT");
        assert_eq!(of("flow_follow_v3").stop_move, of("flow_reverse_v3").stop_move);
    }
    for signal in &e.signals {
        let checks = rule_checks(signal.number, &e.feature, e.score);
        assert!(!checks.is_empty() && checks.iter().all(|check| check.holds()));
    }
    assert!(val(e.score) > 0.3);
    assert!(val(e.history_minutes) > 10.);
    assert!(!e.history_truncated);
}

#[test]
fn a_stale_peer_has_no_say() {
    let c = LabConfig::default();
    let points = rising_market(650);
    let old: Vec<MarketPoint> = points.iter().filter(|p| p.ts < 600_000).cloned().collect();
    let logs = log_returns(&closed_buckets(&points, 650_000, &c));
    let old_logs = log_returns(&closed_buckets(&old, 650_000, &c));
    let fresh = build_signals(&points, &points, Exchange::Bybit, 650_000, &c, &logs, &logs);
    assert_eq!(fresh.unwrap().peer.map(|p| p.quote_ts), Some(Some(649_000)));
    let stale = build_signals(&points, &old, Exchange::Bybit, 650_000, &c, &logs, &old_logs);
    assert!(stale.unwrap().peer.is_none());
}

#[test]
fn no_strategy_is_evaluated_on_what_is_not_fit() {
    assert!(matches!(
        evaluate(&rising_market(300), 300_000),
        Err(NotReady::ShortHistory)
    ));
    assert!(matches!(
        evaluate(&rising_market(650), 680_000),
        Err(NotReady::StaleFeed)
    ));
    let mut wide = rising_market(650);
    for p in wide.iter_mut() {
        p.ask_price = p.ask_price.map(|a| num(val(a) + 1.));
    }
    assert!(matches!(evaluate(&wide, 650_000), Err(NotReady::WideSpread)));
    let mut broken = rising_market(650);
    broken.retain(|p| p.ts < 560_000 || p.ts > 620_000);
    assert!(matches!(evaluate(&broken, 650_000), Err(NotReady::BrokenHistory)));
    assert_eq!(
        NotReady::StaleFeed.message(),
        "Market feed is stale; no new paper entries"
    );
}

#[test]
fn a_window_holds_the_last_quote_and_the_taker_flow() {
    let mut sale = trade(2000);
    sale.side = Some("SELL".into());
    sale.qty = Some(num(2.));
    let buckets = build_buckets(
        &[point(0, 100.), trade(1000), sale, point(4999, 102.)],
        15000,
    );
    assert_eq!(buckets.len(), 1);
    assert_eq!(buckets[0].ts, 0);
    assert_eq!(buckets[0].buy_qty, num(3.));
    assert_eq!(buckets[0].sell_qty, num(2.));
    assert_eq!(buckets[0].trade_count, 2);
    assert_eq!(buckets[0].quote_ts, Some(4999));
    assert_eq!(val(buckets[0].price.unwrap()), (101.995 + 102.005) / 2.);
    assert_eq!(buckets[0].bid_low, Some(num(99.995)));
    assert_eq!(buckets[0].bid_high, Some(num(101.995)));
}

#[test]
fn a_feature_needs_five_minutes_of_prices() {
    let points: Vec<MarketPoint> = (0..400).map(|n| point(n * 5000, 100.)).collect();
    let buckets = build_buckets(&points, 15000);
    let logs = log_returns(&buckets);
    assert!(feature_at(&buckets, 10, &logs).is_none());
    let f = feature_at(&buckets, 300, &logs).unwrap();
    assert_eq!(val(f.ret_300s), 0.);
    assert_eq!(val(f.volatility_60s), 0.);
    assert!((val(f.spread_bps) - 1.).abs() < 1e-9);
    assert_eq!(val(feature_distance(&f, &f)), 0.);
    let imbalance = (200. - 40.) / (200. + 40.);
    assert!((val(f.book_imbalance_60s) - imbalance).abs() < 1e-12);
    assert!(val(microstructure_score(&f)) > 0.);
}

#[test]
fn a_target_reached_alone_is_a_win_after_costs() {
    let mut buckets = build_buckets(&[point(0, 100.), point(5000, 100.)], 15000);
    buckets[1].bid_high = Some(num(104.));
    let n = vec![Neighbor {
        index: 0,
        future_return: num(0.),
        weight: num(1.),
    }];
    let b = barrier_stats(&buckets, &n, 1, "LONG", num(0.03), num(0.01), num(10.), num(1.));
    assert_eq!((b.samples, b.wins, b.losses, b.timeouts), (1, 1, 0, 0));
    assert_eq!(val(b.weighted_strict_win_rate), 1.);
    assert!(val(b.expected_net_bps) > 250.);
    assert!(val(b.wilson_lower_bound) < 0.5);
}

#[test]
fn rules_name_what_they_measure() {
    let points: Vec<MarketPoint> = (0..400).map(|n| point(n * 5000, 100.)).collect();
    let buckets = build_buckets(&points, 15000);
    let f = feature_at(&buckets, 300, &log_returns(&buckets)).unwrap();
    for (strategy, count) in [(0, 4), (1, 4), (2, 5), (3, 5), (4, 4), (5, 0)] {
        assert_eq!(rule_checks(strategy, &f, num(0.5)).len(), count);
    }
    let checks = rule_checks(0, &f, num(0.5));
    assert_eq!(checks[0].name, "abs_score");
    assert!(checks[0].holds());
    assert!(!rule_checks(0, &f, num(0.2))[0].holds());
}

#[test]
fn every_lane_is_told_of() {
    let e = evaluate(&rising_market(650), 650_000).unwrap();
    let reasons: Vec<String> = e
        .lanes
        .iter()
        .map(|lane| format!("{}: {}", lane.horizon_secs, lane.reason.waiting().unwrap()))
        .collect();
    let d = diagnostics(&e, &reasons);
    assert_eq!(d.lanes.len(), 24);
    assert_eq!(d.evaluated_at, Some(650_000));
    assert_eq!(d.lanes[0].strategy, "flow_follow_v3");
    assert_eq!(d.lanes[0].reason, "60: Waiting for this strategy's market setup");
    assert_eq!(d.lanes[23].strategy, "consensus_v3");
    assert_eq!(d.lanes[23].reason, "3600: Waiting for independent historical analogs");
    assert_eq!(
        Reason::NoAnalogs.waiting(),
        Some("Waiting for independent historical analogs")
    );
    assert_eq!(
        Reason::NoAgreement.waiting(),
        Some("Waiting for fresh agreement from both exchanges and trend")
    );
    let failed = failed_diagnostics(7, "no data".into());
    assert_eq!(failed.evaluated_at, Some(7));
    assert_eq!(failed.message, "no data");
    assert!(failed.lanes.is_empty());
    assert_eq!(
        idle_diagnostics().message,
        "Start the lab to collect fresh history and evaluate all six strategies."
    );
    assert_eq!(history_since(100_000_000, &LabConfig::default()), 13_600_000);
    assert_eq!(peer_since(1_000_000), 100_000);
}

#[test]
fn lanes_stand_in_the_order_of_horizons_and_strategies() {
    let e = evaluate(&rising_market(650), 650_000).unwrap();
    assert_eq!(e.lanes.len(), 24);
    for h in 0..4 {
        for k in 0..6 {
            assert_eq!(e.lanes[6 * h + k].strategy, STRATEGIES[k].0);
            assert_eq!(e.lanes[6 * h + k].horizon_secs, HORIZONS[h]);
        }
    }
}

#[test]
fn klines_and_depth_changes_leave_the_windows_alone() {
    let points = [point(1000, 100.), trade(2000), point(12_000, 101.)];
    let expected = build_buckets(&points, 15000);
    for kind in ["kline", "depth", "depth_snapshot", "price_ticker", "agg_trade"] {
        for k in 1..3 {
            let mut other = point(7000, 500.);
            other.kind = kind.into();
            let mut more = points.to_vec();
            more.insert(k, other);
            assert_eq!(build_buckets(&more, 15000), expected);
        }
    }
}

#[test]
fn a_day_holds_too_few_analogs_of_an_hour() {
    let points: Vec<MarketPoint> = (0..17_280)
        .map(|n| point(n * 5000, 100. + (n as f64 * 0.01).sin()))
        .collect();
    let buckets = build_buckets(&points, 15000);
    let logs = log_returns(&buckets);
    let features: Vec<Option<Feature>> = (0..buckets.len())
        .map(|i| feature_at(&buckets, i, &logs))
        .collect();
    let last = buckets.len() - 1;
    let current = features[last].unwrap();
    let future = logarithms(&buckets, 720);
    let c = LabConfig::default();
    let found = pattern_forecast(
        &buckets,
        &features,
        last,
        720,
        &current,
        c.analog_neighbors,
        &future,
    )
    .unwrap();
    assert!(found.neighbors.len() <= 22);
    assert!(found.neighbors.len() < c.min_analog_samples);
}
