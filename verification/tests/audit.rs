use market_lab::audit::{diagnose, observe, record_exit, ExecutionAudit};
use market_lab::db::Quote;
use market_lab::model::{Exchange, Prediction};
use market_lab::num::Num;

fn num(x: f64) -> Num {
    Num { bits: x.to_bits() }
}

fn val(x: Num) -> f64 {
    f64::from_bits(x.bits)
}

fn prediction() -> Prediction {
    Prediction {
        id: "position".into(),
        exchange: Exchange::Binance,
        symbol: "BTCUSDT".into(),
        created_at: 1000,
        horizon_secs: 60,
        direction: "LONG".into(),
        entry_price: num(100.),
        target_price: num(103.),
        stop_price: num(99.),
        confidence: num(0.),
        score: num(0.5),
        expected_return: num(0.),
        strategy: "flow_follow_v3".into(),
        status: "OPEN".into(),
        resolved_at: None,
        exit_price: None,
        pnl_bps: None,
        config_id: "v3-current".into(),
        fee_bps: num(10.),
        slippage_bps: num(1.),
        notional: num(1000.),
        gross_pnl_bps: None,
        cursor_id: 0,
        last_quote_ts: 1000,
        mark_price: Some(num(100.)),
        max_gap_ms: 15000,
        entry_reason: "Test fixture, not market evidence".into(),
        entry_snapshot: None,
        execution_audit: None,
    }
}

fn quote(id: i64, ts: i64, bid: f64, ask: f64) -> Quote {
    Quote {
        id,
        ts,
        event_ts: ts,
        bid: num(bid),
        ask: num(ask),
        bid_qty: num(100.),
        ask_qty: num(100.),
    }
}

#[test]
fn extrema_only_use_executable_quotes_and_include_both_sides_costs() {
    let mut p = prediction();
    p.execution_audit = Some(ExecutionAudit::start(&p, true, p.created_at));
    observe(&mut p, &quote(1, 2000, 100.5, 100.51), true);
    let best = p.execution_audit.as_ref().unwrap().best.clone().unwrap();
    assert!(val(best.net_bps.unwrap()) < val(best.gross_bps.unwrap()));
    let mut thin = quote(2, 3000, 104., 104.01);
    thin.bid_qty = num(0.01);
    observe(&mut p, &thin, true);
    observe(&mut p, &quote(3, 4000, 97., 97.01), true);
    let t = p.execution_audit.as_ref().unwrap();
    assert_eq!(t.best.as_ref().unwrap().quote.id, 1);
    assert_eq!(t.worst.as_ref().unwrap().quote.id, 3);
    assert_eq!(t.quotes_observed, 3);
    assert_eq!(t.executable_quotes, 2);
    assert_eq!(t.illiquid_quotes, 1);
}

#[test]
fn missing_historical_evidence_is_not_fabricated_and_cost_loss_is_distinguished() {
    let mut p = prediction();
    p.status = "TIMEOUT".into();
    p.gross_pnl_bps = Some(num(5.));
    p.pnl_bps = Some(num(-15.));
    let d = diagnose(&p);
    assert_eq!(d.entry_evidence, "not_recorded");
    assert_eq!(d.exit_reason_source, "status_only");
    assert_eq!(d.outcome, "timeout_loss");
    assert!(d.fees_changed_profit_to_loss);
    assert_eq!(d.fees_paid_bps, Some(num(20.)));
    assert_eq!(d.best_observed_net_bps, None);
    p.status = "DATA_GAP".into();
    p.pnl_bps = None;
    assert_eq!(diagnose(&p).outcome, "unverifiable");
}

#[test]
fn every_outcome_has_its_name() {
    let mut p = prediction();
    assert_eq!(diagnose(&p).outcome, "open");
    p.status = "WIN".into();
    p.pnl_bps = Some(num(10.));
    assert_eq!(diagnose(&p).outcome, "profitable");
    p.pnl_bps = Some(num(0.));
    assert_eq!(diagnose(&p).outcome, "breakeven");
    p.pnl_bps = Some(num(-1.));
    assert_eq!(diagnose(&p).outcome, "other_loss");
    p.status = "LOSS".into();
    assert_eq!(diagnose(&p).outcome, "stop_loss");
}

#[test]
fn an_exit_is_recorded_with_its_quote() {
    let mut p = prediction();
    p.execution_audit = Some(ExecutionAudit::start(&p, true, p.created_at));
    p.exit_price = Some(num(103.));
    record_exit(&mut p, "take_profit", 2500, Some(&quote(42, 2400, 103.2, 103.3)));
    let exit = p.execution_audit.as_ref().unwrap().exit.as_ref().unwrap();
    assert_eq!(exit.code, "take_profit");
    assert_eq!(exit.at, 2500);
    assert_eq!(exit.fill_price, Some(num(103.)));
    assert_eq!(exit.quote.as_ref().unwrap().id, 42);
}

#[test]
fn gaps_between_quotes_are_measured() {
    let mut p = prediction();
    p.execution_audit = Some(ExecutionAudit::start(&p, true, p.created_at));
    observe(&mut p, &quote(1, 4000, 100., 100.01), true);
    assert_eq!(p.execution_audit.as_ref().unwrap().max_observed_gap_ms, 3000);
}
