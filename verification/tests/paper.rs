use market_lab::model::{Exchange, Prediction};
use market_lab::num::Num;
use market_lab::paper::{
    entry_fill, exit_fill, pnl, reports, stats, win_interval, LabConfig, HORIZONS, STRATEGIES,
};

fn num(x: f64) -> Num {
    Num { bits: x.to_bits() }
}

fn val(x: Num) -> f64 {
    f64::from_bits(x.bits)
}

fn prediction() -> Prediction {
    Prediction {
        id: "position".into(),
        exchange: Exchange::Binance,
        symbol: "BTCUSDT".into(),
        created_at: 1000,
        horizon_secs: 60,
        direction: "LONG".into(),
        entry_price: num(100.),
        target_price: num(103.),
        stop_price: num(99.),
        confidence: num(0.),
        score: num(0.5),
        expected_return: num(0.),
        strategy: "flow_follow_v3".into(),
        status: "OPEN".into(),
        resolved_at: None,
        exit_price: None,
        pnl_bps: None,
        config_id: "v3-current".into(),
        fee_bps: num(10.),
        slippage_bps: num(1.),
        notional: num(1000.),
        gross_pnl_bps: None,
        cursor_id: 0,
        last_quote_ts: 1000,
        mark_price: Some(num(100.)),
        max_gap_ms: 15000,
        entry_reason: "Test fixture, not market evidence".into(),
        entry_snapshot: None,
        execution_audit: None,
    }
}

fn text_of(x: Num) -> String {
    format!("{:?}", val(x))
}

/// The configuration as the program stores it.
fn json(c: &LabConfig) -> String {
    format!(
        "{{\"engine_version\":{},\"risk_reward\":{},\"interval_secs\":{},\"lookback_hours\":{},\
         \"max_points\":{},\"target_win_rate\":{},\"min_win_lower_bound\":{},\"min_edge_bps\":{},\
         \"max_spread_bps\":{},\"min_analog_samples\":{},\"analog_neighbors\":{},\
         \"cooldown_secs\":{},\"max_quote_age_ms\":{},\"max_gap_ms\":{},\"binance_fee_bps\":{},\
         \"bybit_fee_bps\":{},\"slippage_bps\":{},\"notional\":{},\"initial_capital\":{},\
         \"min_forward_trades\":{}}}",
        c.engine_version,
        text_of(c.risk_reward),
        c.interval_secs,
        c.lookback_hours,
        c.max_points,
        text_of(c.target_win_rate),
        text_of(c.min_win_lower_bound),
        text_of(c.min_edge_bps),
        text_of(c.max_spread_bps),
        c.min_analog_samples,
        c.analog_neighbors,
        c.cooldown_secs,
        c.max_quote_age_ms,
        c.max_gap_ms,
        text_of(c.binance_fee_bps),
        text_of(c.bybit_fee_bps),
        text_of(c.slippage_bps),
        text_of(c.notional),
        text_of(c.initial_capital),
        c.min_forward_trades,
    )
}

fn settings(items: &[(&str, &str)]) -> Vec<(String, String)> {
    items
        .iter()
        .map(|(k, v)| (k.to_string(), v.to_string()))
        .collect()
}

#[test]
fn long_and_short_pay_both_fees_and_adverse_slippage() {
    let long_entry = entry_fill("LONG", num(99.), num(101.), num(10.));
    let short_entry = entry_fill("SHORT", num(99.), num(101.), num(10.));
    assert!((val(long_entry) - 101.101).abs() < 1e-9);
    assert!((val(short_entry) - 98.901).abs() < 1e-9);
    let long_exit = exit_fill("LONG", num(99.), num(10.));
    let short_exit = exit_fill("SHORT", num(101.), num(10.));
    assert!(val(pnl("LONG", long_entry, long_exit, num(10.)).1) < -200.);
    assert!(val(pnl("SHORT", short_entry, short_exit, num(10.)).1) < -200.);
    assert!((val(pnl("LONG", num(100.), num(103.), num(10.)).1) - 279.7).abs() < 1e-8);
    assert!((val(pnl("SHORT", num(100.), num(97.), num(10.)).1) - 280.3).abs() < 1e-8);
}

#[test]
fn target_hit_below_cost_is_not_a_net_win() {
    let mut p = prediction();
    p.status = "WIN".into();
    p.pnl_bps = Some(num(-2.));
    let s = stats(&[&p], num(10000.), &LabConfig::default());
    assert_eq!(s.wins, 0);
    assert_eq!(s.target_hits, 0);
    assert_eq!(s.losses, 1);
}

#[test]
fn timeouts_and_data_gaps_cannot_disappear_from_the_denominator() {
    let mut win = prediction();
    win.status = "WIN".into();
    win.pnl_bps = Some(num(100.));
    let mut timeout = prediction();
    timeout.status = "TIMEOUT".into();
    timeout.pnl_bps = Some(num(5.));
    let mut gap = prediction();
    gap.status = "DATA_GAP".into();
    let s = stats(&[&win, &timeout, &gap], num(10000.), &LabConfig::default());
    assert_eq!(s.resolved, 3);
    assert_eq!(s.wins, 2);
    assert_eq!(s.timeouts, 1);
    assert_eq!(s.invalid, 1);
    assert!((val(s.win_rate) - 2. / 3.).abs() < 1e-9);
    assert!((val(s.strict_win_rate) - 1. / 3.).abs() < 1e-9);
    assert!(!s.sample_ready);
}

#[test]
fn capital_profit_factor_and_closed_drawdown_use_actual_notional() {
    let mut a = prediction();
    a.status = "WIN".into();
    a.resolved_at = Some(10);
    a.pnl_bps = Some(num(1000.));
    let mut b = prediction();
    b.status = "LOSS".into();
    b.resolved_at = Some(20);
    b.pnl_bps = Some(num(-500.));
    let s = stats(&[&b, &a], num(10000.), &LabConfig::default());
    assert_eq!(val(s.net_pnl), 50.);
    assert_eq!(s.profit_factor, Some(num(2.)));
    assert!((val(s.closed_drawdown_pct) - 50. / 10100. * 100.).abs() < 1e-9);
}

#[test]
fn small_perfect_sample_is_not_eighty_percent_evidence() {
    assert!(val(win_interval(5, 5).0) < 0.8);
    assert!(val(win_interval(80, 100).0) < 0.8);
    assert_eq!(win_interval(0, 0), (num(0.), num(1.)));
}

#[test]
fn configuration_change_creates_a_new_cohort() {
    let a = LabConfig::default();
    let mut b = a.clone();
    assert_eq!(LabConfig::id(&json(&a)), LabConfig::id(&json(&b)));
    b.bybit_fee_bps = num(val(b.bybit_fee_bps) + 1.);
    assert_ne!(LabConfig::id(&json(&a)), LabConfig::id(&json(&b)));
}

#[test]
fn every_exchange_has_identical_strategy_and_horizon_definitions() {
    let reports = reports(&[], &LabConfig::default());
    assert_eq!(reports.len(), 6);
    for report in reports {
        assert_eq!(report.horizons.len(), 4);
        assert_eq!(report.stats.initial_capital, num(40000.));
    }
}

#[test]
fn an_identifier_is_the_hash_of_the_stored_text() {
    let reference = |text: &str| {
        let hash = text.bytes().fold(0xcbf2_9ce4_8422_2325_u64, |hash, byte| {
            (hash ^ u64::from(byte)).wrapping_mul(0x0100_0000_01b3)
        });
        format!("v3-{hash:016x}")
    };
    for text in ["", "a", "{\"fee\":10.0}", "فارسی"] {
        assert_eq!(LabConfig::id(text), reference(text));
    }
}

#[test]
fn settings_are_read_and_held_to_their_ranges() {
    let d = LabConfig::from_env(&settings(&[]));
    assert_eq!(d, LabConfig::default());
    assert_eq!(d.max_points, 750_000);
    let c = LabConfig::from_env(&settings(&[
        ("BINANCE_TAKER_FEE_BPS", "7.5"),
        ("MAX_QUOTE_AGE_MS", "1e9"),
        ("ANALYSIS_LOOKBACK_HOURS", "nonsense"),
        ("REENTRY_COOLDOWN_SECS", "60"),
    ]));
    assert_eq!(c.fee(Exchange::Binance), num(7.5));
    assert_eq!(c.fee(Exchange::Bybit), num(10.));
    assert_eq!(c.max_quote_age_ms, 10_000);
    assert_eq!(c.lookback_hours, 24);
    assert_eq!(c.cooldown_secs, 60);
}

#[test]
fn exact_values_of_fills_results_and_intervals() {
    for (bid, ask, slip) in [(99., 101., 10.), (0.1, 0.3, 1.), (27000.55, 27000.56, 2.5)] {
        let long = entry_fill("LONG", num(bid), num(ask), num(slip));
        assert_eq!(val(long), ask * (1. + slip / 10_000.));
        let short = entry_fill("SHORT", num(bid), num(ask), num(slip));
        assert_eq!(val(short), bid * (1. - slip / 10_000.));
        assert_eq!(val(exit_fill("LONG", num(bid), num(slip))), bid * (1. - slip / 10_000.));
        assert_eq!(val(exit_fill("SHORT", num(ask), num(slip))), ask * (1. + slip / 10_000.));
    }
    let (gross, net) = pnl("LONG", num(100.), num(103.), num(10.));
    assert_eq!(val(gross), (103_f64 / 100. - 1.) * 10_000.);
    assert_eq!(val(net), val(gross) - 10. * (1. + 103. / 100.));
    let (gross, _) = pnl("SHORT", num(100.), num(103.), num(10.));
    assert_eq!(val(gross), (1. - 103_f64 / 100.) * 10_000.);
    let (low, high) = win_interval(8, 10);
    for (wins, total) in [(0, 1), (1, 1), (0, 50), (50, 50), (7, 9)] {
        let (least, most) = win_interval(wins, total);
        assert!(val(least) >= 0. && val(least) < val(most) && val(most) <= 1.);
    }
    assert_eq!((val(low), val(high)), (0.49015684672072346, 0.9433190520193067));
}

#[test]
fn slippage_and_fees_are_never_a_gain() {
    for (price, slip, fee) in [(100., 1., 10.), (0.003, 7., 2.), (65000., 0., 0.)] {
        assert!(val(entry_fill("LONG", num(price), num(price), num(slip))) >= price);
        assert!(val(entry_fill("SHORT", num(price), num(price), num(slip))) <= price);
        assert!(val(exit_fill("LONG", num(price), num(slip))) <= price);
        assert!(val(exit_fill("SHORT", num(price), num(slip))) >= price);
        for direction in ["LONG", "SHORT"] {
            let (gross, net) = pnl(direction, num(price), num(price * 1.01), num(fee));
            assert!(val(net) <= val(gross));
        }
    }
}

#[test]
fn a_ready_sample_needs_a_hundred_profitable_closed_positions() {
    let mut wins: Vec<Prediction> = Vec::new();
    for _ in 0..100 {
        let mut p = prediction();
        p.status = "WIN".into();
        p.pnl_bps = Some(num(100.));
        wins.push(p);
    }
    let all: Vec<&Prediction> = wins.iter().collect();
    assert!(stats(&all, num(10000.), &LabConfig::default()).sample_ready);
    assert!(!stats(&all[1..], num(10000.), &LabConfig::default()).sample_ready);
    let mut gap = prediction();
    gap.status = "DATA_GAP".into();
    let mut with_gap = all.clone();
    with_gap.push(&gap);
    let s = stats(&with_gap, num(10000.), &LabConfig::default());
    assert!(!s.sample_ready);
    assert_eq!(s.resolved, s.wins + s.losses + s.breakeven + s.invalid);
}

#[test]
fn open_positions_are_valued_at_what_they_would_fetch() {
    let mut p = prediction();
    p.mark_price = Some(num(101.));
    let s = stats(&[&p], num(10000.), &LabConfig::default());
    assert_eq!(s.open, 1);
    assert_eq!(s.resolved, 0);
    let fill = 101. * (1. - 1. / 10_000.);
    let net = (fill - 100.) / 100. * 10_000. - 10. * (1. + fill / 100.);
    assert!((val(s.unrealized_pnl) - 1000. * net / 10_000.).abs() < 1e-9);
}

#[test]
fn reports_separate_strategies_and_horizons() {
    let mut items: Vec<Prediction> = Vec::new();
    for (strategy, _, _) in STRATEGIES {
        for horizon in HORIZONS {
            let mut p = prediction();
            p.strategy = strategy.into();
            p.horizon_secs = horizon;
            items.push(p);
        }
    }
    let reports = reports(&items, &LabConfig::default());
    for (report, (id, name, _)) in reports.iter().zip(STRATEGIES) {
        assert_eq!(report.id, id);
        assert_eq!(report.name, name);
        assert_eq!(report.stats.total, 4);
        for (horizon, secs) in report.horizons.iter().zip(HORIZONS) {
            assert_eq!(horizon.horizon_secs, secs);
            assert_eq!(horizon.stats.total, 1);
        }
    }
}

#[test]
fn a_round_trip_on_one_quote_never_earns() {
    for (bid, ask) in [(100., 100.), (100., 100.01), (1e-300, 2e-300), (5e-324, 1e308)] {
        for slip in [0., 1., 50., 9999.] {
            for fee in [0.1, 10.] {
                for direction in ["LONG", "SHORT"] {
                    let quote = if direction == "LONG" { bid } else { ask };
                    let entry = entry_fill(direction, num(bid), num(ask), num(slip));
                    let exit = exit_fill(direction, num(quote), num(slip));
                    let (gross, net) = pnl(direction, entry, exit, num(fee));
                    assert!(val(gross) <= 0., "{direction} {bid} {ask} {slip} {fee}");
                    assert!(val(net) <= val(gross), "{direction} {bid} {ask} {slip} {fee}");
                }
            }
        }
    }
    let entry = entry_fill("SHORT", num(5e-324), num(5e-324), num(9999.));
    let exit = exit_fill("SHORT", num(5e-324), num(9999.));
    assert_eq!(val(entry), 0.);
    assert!(val(pnl("SHORT", entry, exit, num(0.)).1).is_nan());
}

#[test]
fn what_a_long_position_gains_a_short_one_loses() {
    for exit in [0., 1., 99.5, 100., 100.3, 1e300] {
        let long = pnl("LONG", num(100.), num(exit), num(10.)).0;
        let short = pnl("SHORT", num(100.), num(exit), num(10.)).0;
        assert_eq!(val(long), -val(short));
    }
}

#[test]
fn a_small_change_makes_a_new_identifier() {
    let mut c = LabConfig::default();
    let mut seen = Vec::new();
    for fee in [10., 11., 12., 12.5, 19.9] {
        c.bybit_fee_bps = num(fee);
        let id = LabConfig::id(&json(&c));
        assert_eq!(id.len(), 19);
        assert!(id.starts_with("v3-"));
        assert!(id[3..].chars().all(|d| matches!(d, '0'..='9' | 'a'..='f')));
        assert!(!seen.contains(&id));
        seen.push(id);
    }
}
