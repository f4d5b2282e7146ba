use market_lab::analysis::bucket::Bucket;
use market_lab::analysis::build_signals;
use market_lab::analysis::entry::{
    entry_gate, entry_snapshot, open_position, plan_entry, position_with, set_reason, EntryResult,
    Gate,
};
use market_lab::analysis::feature::{price_ratios, LogReturns};
use market_lab::analysis::signal::{closed_buckets, Evaluation};
use market_lab::db::Quote;
use market_lab::model::{Exchange, MarketPoint, Prediction};
use market_lab::num::Num;
use market_lab::paper::{LabConfig, LaneDiagnostic};

fn num(x: f64) -> Num {
    Num { bits: x.to_bits() }
}

fn val(x: Num) -> f64 {
    f64::from_bits(x.bits)
}

fn point(ts: i64, price: f64) -> MarketPoint {
    MarketPoint {
        kind: "book_ticker".into(),
        ts,
        qty: None,
        side: None,
        bid_price: Some(num(price - 0.005)),
        ask_price: Some(num(price + 0.005)),
        bid_qty: Some(num(200.)),
        ask_qty: Some(num(40.)),
    }
}

fn trade(ts: i64) -> MarketPoint {
    MarketPoint {
        kind: "trade".into(),
        ts,
        qty: Some(num(3.)),
        side: Some("BUY".into()),
        bid_price: None,
        ask_price: None,
        bid_qty: None,
        ask_qty: None,
    }
}

fn logarithms(buckets: &Vec<Bucket>, lag: usize) -> Vec<Num> {
    price_ratios(buckets, lag)
        .into_iter()
        .map(|ratio| num(ratio.map_or(0., |r| val(r).ln())))
        .collect()
}

fn log_returns(buckets: &Vec<Bucket>) -> LogReturns {
    LogReturns {
        over_1: logarithms(buckets, 1),
        over_3: logarithms(buckets, 3),
        over_12: logarithms(buckets, 12),
        over_60: logarithms(buckets, 60),
        over_180: logarithms(buckets, 180),
        over_720: logarithms(buckets, 720),
    }
}

fn quote(id: i64, ts: i64, bid: f64, ask: f64) -> Quote {
    Quote {
        id,
        ts,
        event_ts: ts,
        bid: num(bid),
        ask: num(ask),
        bid_qty: num(100.),
        ask_qty: num(100.),
    }
}

fn evaluation() -> Evaluation {
    let mut points = Vec::new();
    for n in 0..650 {
        points.push(point(n * 1000, 100. + n as f64 / 500.));
        points.push(trade(n * 1000));
    }
    let c = LabConfig::default();
    let logs = log_returns(&closed_buckets(&points, 650_000, &c));
    build_signals(&points, &points, Exchange::Binance, 650_000, &c, &logs, &logs).unwrap()
}

fn opened(e: &Evaluation, number: usize, at: i64) -> Prediction {
    let c = LabConfig::default();
    let signal = &e.signals[number];
    let plan = plan_entry(Some(quote(9, at, 101.29, 101.3)), signal, at, &c).unwrap();
    position_with(
        "one".into(),
        Exchange::Bybit,
        "BTCUSDT",
        "v3-test",
        "rule".into(),
        None,
        &plan,
        signal,
        &c,
    )
}

#[test]
fn a_signal_becomes_a_position_at_the_fresh_quote() {
    let e = evaluation();
    let c = LabConfig::default();
    for signal in &e.signals {
        let plan = plan_entry(Some(quote(9, 650_100, 101.29, 101.3)), signal, 650_200, &c).unwrap();
        let snapshot = entry_snapshot(&plan, signal, &e, &c);
        assert_eq!(snapshot.quote_age_ms, 100);
        assert_eq!(snapshot.evaluated_at, 650_000);
        assert!(snapshot.checks.iter().all(|check| check.holds()));
        let p = open_position(
            Exchange::Binance,
            "BTCUSDT",
            "v3-test",
            "rule".into(),
            None,
            &plan,
            signal,
            &c,
        );
        assert_eq!(p.status, "OPEN");
        assert_eq!(p.created_at, 650_200);
        assert_eq!(p.cursor_id, 9);
        assert_eq!(p.last_quote_ts, 650_100);
        assert_eq!(p.strategy, signal.strategy);
        assert!(val(p.fee_bps) > 0.);
        let (entry, target, stop) = (
            val(p.entry_price),
            val(p.target_price),
            val(p.stop_price),
        );
        assert!(((target - entry).abs() / (stop - entry).abs() - 3.).abs() < 1e-8);
        let expected = if signal.direction == "LONG" {
            101.3 * (1. + 1. / 10_000.)
        } else {
            101.29 * (1. - 1. / 10_000.)
        };
        assert_eq!(entry, expected);
        let audit = p.execution_audit.as_ref().unwrap();
        assert!(audit.complete_from_entry);
        assert_eq!(audit.quotes_observed, 1);
        assert_eq!(audit.first.as_ref().unwrap().quote.id, 9);
    }
}

#[test]
fn identifiers_are_new_every_time() {
    let e = evaluation();
    let c = LabConfig::default();
    let signal = &e.signals[0];
    let plan = plan_entry(Some(quote(9, 650_100, 101.29, 101.3)), signal, 650_200, &c).unwrap();
    let open = || {
        open_position(Exchange::Binance, "BTCUSDT", "x", "r".into(), None, &plan, signal, &c).id
    };
    let (a, b) = (open(), open());
    assert_ne!(a, b);
    assert_eq!(a.len(), 36);
}

#[test]
fn a_quote_has_to_be_fit_for_an_entry() {
    let e = evaluation();
    let c = LabConfig::default();
    let signal = &e.signals[0];
    assert_eq!(plan_entry(None, signal, 650_200, &c), Err(EntryResult::NoQuote));
    let old = quote(9, 640_000, 101.29, 101.3);
    assert_eq!(plan_entry(Some(old), signal, 650_200, &c), Err(EntryResult::NoQuote));
    let crossed = quote(9, 650_100, 101.4, 101.3);
    assert_eq!(plan_entry(Some(crossed), signal, 650_200, &c), Err(EntryResult::NoQuote));
    let wide = quote(9, 650_100, 101., 101.5);
    assert_eq!(plan_entry(Some(wide), signal, 650_200, &c), Err(EntryResult::WideSpread));
    let mut thin = quote(9, 650_100, 101.29, 101.3);
    thin.ask_qty = num(0.1);
    assert_eq!(plan_entry(Some(thin), signal, 650_200, &c), Err(EntryResult::ThinBook));
    assert_eq!(EntryResult::WideSpread.message(), "Spread widened before entry");
    assert_eq!(EntryResult::ThinBook.message(), "Insufficient visible top-book size");
    assert_eq!(EntryResult::Opened.message(), "Paper position opened");
    assert_eq!(
        EntryResult::NoQuote.message(),
        "Waiting for a fresh, valid executable quote"
    );
}

#[test]
fn a_lane_takes_one_position_at_a_time() {
    let e = evaluation();
    let c = LabConfig::default();
    let signal = &e.signals[0];
    let gate = |positions: &[Prediction], now: i64| entry_gate(positions, signal, now, now, &c);
    assert_eq!(gate(&[], 650_000), Gate::AskForQuote);
    let open = opened(&e, 0, 650_100);
    assert_eq!(gate(&[open.clone()], 651_000), Gate::AlreadyOpen);
    let mut other = open.clone();
    other.horizon_secs = 3600 - open.horizon_secs;
    assert_eq!(gate(&[other], 651_000), Gate::AskForQuote);
    let mut closed = open.clone();
    closed.status = "LOSS".into();
    closed.resolved_at = Some(700_000);
    closed.pnl_bps = Some(num(-10.));
    assert_eq!(gate(&[closed.clone()], 700_000 + 179_999), Gate::Cooldown);
    assert_eq!(gate(&[closed.clone()], 700_000 + 180_000), Gate::AskForQuote);
    closed.pnl_bps = Some(num(-90_000.));
    assert_eq!(gate(&[closed], 1_000_000), Gate::NoEquity);
    assert_eq!(entry_gate(&[], signal, 650_000, 665_001, &c), Gate::TooLate);
    assert_eq!(entry_gate(&[], signal, 650_000, 665_000, &c), Gate::AskForQuote);
    assert_eq!(
        EntryResult::Gated(Gate::Cooldown).message(),
        "Cooldown after previous exit"
    );
}

#[test]
fn the_lane_of_a_signal_is_told_what_became_of_it() {
    let lane = |strategy: &str, horizon: i64| LaneDiagnostic {
        strategy: strategy.into(),
        horizon_secs: horizon,
        reason: "waiting".into(),
    };
    let mut lanes = vec![lane("a", 60), lane("b", 60), lane("a", 300)];
    set_reason(&mut lanes, "a", 300, "Paper position opened".into());
    assert_eq!(lanes[0].reason, "waiting");
    assert_eq!(lanes[1].reason, "waiting");
    assert_eq!(lanes[2].reason, "Paper position opened");
    set_reason(&mut lanes, "c", 60, "nobody".into());
    assert!(lanes.iter().all(|l| l.reason != "nobody"));
}
