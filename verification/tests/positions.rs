use market_lab::analysis::advance_position;
use market_lab::analysis::resolve::{
    crossing_levels, crossing_won, legacy_until, read_until, resolve, resolve_legacy,
};
use market_lab::db::Quote;
use market_lab::model::{Exchange, Prediction};
use market_lab::num::Num;
use market_lab::paper;
use market_lab::paper::LabConfig;

fn num(x: f64) -> Num {
    Num { bits: x.to_bits() }
}

fn val(x: Num) -> f64 {
    f64::from_bits(x.bits)
}

fn prediction() -> Prediction {
    Prediction {
        id: "position".into(),
        exchange: Exchange::Binance,
        symbol: "BTCUSDT".into(),
        created_at: 1000,
        horizon_secs: 60,
        direction: "LONG".into(),
        entry_price: num(100.),
        target_price: num(103.),
        stop_price: num(99.),
        confidence: num(0.),
        score: num(0.5),
        expected_return: num(0.),
        strategy: "flow_follow_v3".into(),
        status: "OPEN".into(),
        resolved_at: None,
        exit_price: None,
        pnl_bps: None,
        config_id: "v3-current".into(),
        fee_bps: num(10.),
        slippage_bps: num(1.),
        notional: num(1000.),
        gross_pnl_bps: None,
        cursor_id: 0,
        last_quote_ts: 1000,
        mark_price: Some(num(100.)),
        max_gap_ms: 15000,
        entry_reason: "Test fixture, not market evidence".into(),
        entry_snapshot: None,
        execution_audit: None,
    }
}

fn quote(id: i64, ts: i64, bid: f64, ask: f64) -> Quote {
    Quote {
        id,
        ts,
        event_ts: ts,
        bid: num(bid),
        ask: num(ask),
        bid_qty: num(100.),
        ask_qty: num(100.),
    }
}

fn exit_code(p: &Prediction) -> &str {
    p.execution_audit
        .as_ref()
        .unwrap()
        .exit
        .as_ref()
        .unwrap()
        .code
        .as_str()
}

#[test]
fn first_executable_crossing_wins_and_later_stop_is_ignored() {
    let mut p = prediction();
    advance_position(
        &mut p,
        &[quote(1, 2000, 104., 104.01), quote(2, 3000, 98., 98.01)],
        3000,
        true,
    );
    assert_eq!(p.status, "WIN");
    assert_eq!(p.resolved_at, Some(2000));
    assert_eq!(p.exit_price, Some(num(103.)));
    assert!(val(p.pnl_bps.unwrap()) < 300.);
    assert_eq!(exit_code(&p), "take_profit");
}

#[test]
fn short_uses_ask_and_pays_costs() {
    let mut p = prediction();
    p.direction = "SHORT".into();
    p.target_price = num(97.);
    p.stop_price = num(101.);
    advance_position(&mut p, &[quote(1, 2000, 96.9, 97.01)], 2000, true);
    assert_eq!(p.status, "OPEN");
    advance_position(&mut p, &[quote(2, 3000, 96., 96.1)], 3000, true);
    assert_eq!(p.status, "WIN");
    assert!((val(p.pnl_bps.unwrap()) - 280.3).abs() < 1e-8);
}

#[test]
fn adverse_stop_gap_keeps_the_worse_fill() {
    let mut p = prediction();
    advance_position(&mut p, &[quote(1, 2000, 97., 97.01)], 2000, true);
    assert_eq!(p.status, "LOSS");
    assert!(val(p.exit_price.unwrap()) < 97.);
    assert!(val(p.pnl_bps.unwrap()) < -300.);
    assert_eq!(exit_code(&p), "stop_loss");
}

#[test]
fn positive_timeout_counts_as_profit_but_not_target_hit() {
    let mut p = prediction();
    p.last_quote_ts = 60000;
    p.mark_price = Some(num(100.5));
    advance_position(&mut p, &[], 61000, true);
    assert_eq!(p.status, "TIMEOUT");
    assert!(val(p.pnl_bps.unwrap()) > 0.);
    assert_eq!(exit_code(&p), "horizon_timeout");
    let s = paper::stats(&[&p], num(10000.), &LabConfig::default());
    assert_eq!(s.wins, 1);
    assert_eq!(s.target_hits, 0);
}

#[test]
fn disconnected_feed_is_invalid_not_a_fabricated_timeout() {
    let mut p = prediction();
    advance_position(&mut p, &[], 62000, true);
    assert_eq!(p.status, "DATA_GAP");
    assert_eq!(p.pnl_bps, None);
    assert_eq!(p.exit_price, None);
    assert_eq!(exit_code(&p), "timeout_quote_stale");
}

#[test]
fn gap_before_a_target_hit_does_not_become_a_win() {
    let mut p = prediction();
    advance_position(&mut p, &[quote(1, 25000, 110., 110.1)], 25000, true);
    assert_eq!(p.status, "DATA_GAP");
    assert_eq!(exit_code(&p), "quote_gap");
}

#[test]
fn insufficient_book_liquidity_is_flagged() {
    let mut p = prediction();
    let mut q = quote(1, 2000, 104., 104.01);
    q.bid_qty = num(0.001);
    advance_position(&mut p, &[q], 2000, true);
    assert_eq!(p.status, "DATA_GAP");
    assert_eq!(exit_code(&p), "insufficient_exit_liquidity");
}

#[test]
fn thin_book_during_hold_does_not_invent_a_fill_or_close_the_trade() {
    let mut p = prediction();
    let mut q = quote(1, 2000, 100., 100.01);
    q.bid_qty = num(0.001);
    advance_position(&mut p, &[q], 2000, true);
    assert_eq!(p.status, "OPEN");
    assert_eq!(p.mark_price, None);
    let s = paper::stats(&[&p], num(10000.), &LabConfig::default());
    assert_eq!(s.unmarked_open, 1);
    advance_position(&mut p, &[quote(2, 3000, 104., 104.01)], 3000, true);
    assert_eq!(p.status, "WIN");
}

#[test]
fn delayed_quote_is_not_used_as_an_executable_fill() {
    let mut p = prediction();
    let mut q = quote(1, 12000, 104., 104.01);
    q.event_ts = 1000;
    advance_position(&mut p, &[q], 12000, true);
    assert_eq!(p.status, "DATA_GAP");
    assert_eq!(exit_code(&p), "invalid_or_delayed_quote");
}

#[test]
fn paginated_resolver_does_not_timeout_before_consuming_backlog() {
    let mut p = prediction();
    advance_position(&mut p, &[quote(1, 2000, 100., 100.01)], 62000, false);
    assert_eq!(p.status, "OPEN");
    assert_eq!(p.cursor_id, 1);
    advance_position(&mut p, &[quote(2, 3000, 104., 104.01)], 62000, true);
    assert_eq!(p.status, "WIN");
}

#[test]
fn data_after_deadline_cannot_create_a_win() {
    let mut p = prediction();
    p.last_quote_ts = 60000;
    p.mark_price = Some(num(100.));
    advance_position(&mut p, &[quote(1, 62000, 104., 104.01)], 62000, true);
    assert_eq!(p.status, "TIMEOUT");
}

#[test]
fn every_other_exit_has_its_code() {
    let mut stale = prediction();
    advance_position(&mut stale, &[], 17000, true);
    assert_eq!(stale.status, "DATA_GAP");
    assert_eq!(exit_code(&stale), "feed_stale");

    let mut backward = prediction();
    advance_position(
        &mut backward,
        &[quote(1, 3000, 100., 100.01), quote(2, 2000, 100., 100.01)],
        3000,
        true,
    );
    assert_eq!(exit_code(&backward), "quote_out_of_order");

    let mut thin = prediction();
    thin.last_quote_ts = 60000;
    thin.mark_price = None;
    advance_position(&mut thin, &[], 61000, true);
    assert_eq!(exit_code(&thin), "timeout_insufficient_liquidity");
}

#[test]
fn quotes_at_or_before_the_entry_only_move_the_cursor() {
    let mut p = prediction();
    advance_position(&mut p, &[quote(7, 1000, 50., 50.01)], 1500, true);
    assert_eq!(p.status, "OPEN");
    assert_eq!(p.cursor_id, 7);
    assert_eq!(p.last_quote_ts, 1000);
    assert_eq!(p.mark_price, Some(num(100.)));
}

#[test]
fn paging_gives_the_same_outcome_as_reading_at_once() {
    let quotes: Vec<Quote> = (1..20)
        .map(|n| quote(n, 1000 + n * 1000, 100. + n as f64 * 0.2, 100.01 + n as f64 * 0.2))
        .collect();
    let mut whole = prediction();
    advance_position(&mut whole, &quotes, 30000, true);
    for cut in 0..quotes.len() {
        let mut paged = prediction();
        advance_position(&mut paged, &quotes[..cut], 30000, false);
        if paged.status == "OPEN" {
            advance_position(&mut paged, &quotes[cut..], 30000, true);
        }
        assert_eq!(paged.status, whole.status);
        assert_eq!(paged.resolved_at, whole.resolved_at);
        assert_eq!(paged.exit_price, whole.exit_price);
        assert_eq!(paged.pnl_bps, whole.pnl_bps);
        assert_eq!(paged.cursor_id, whole.cursor_id);
    }
    assert_eq!(whole.status, "WIN");
}

#[test]
fn an_open_position_without_an_audit_gets_a_partial_one() {
    let mut p = prediction();
    advance_position(&mut p, &[quote(1, 2000, 100., 100.01)], 2000, true);
    let audit = p.execution_audit.as_ref().unwrap();
    assert!(!audit.complete_from_entry);
    assert_eq!(audit.quotes_observed, 1);
}

#[test]
fn the_entry_stays_as_it_was_recorded() {
    let before = prediction();
    let mut p = prediction();
    p.entry_snapshot = serde_json::from_str("{\"features\":{\"flow_60s\":0.65}}").ok();
    let snapshot = p.entry_snapshot.clone();
    advance_position(&mut p, &[quote(1, 2000, 97., 97.01)], 2000, true);
    assert_eq!(p.id, before.id);
    assert_eq!(p.entry_price, before.entry_price);
    assert_eq!(p.target_price, before.target_price);
    assert_eq!(p.stop_price, before.stop_price);
    assert_eq!(p.entry_reason, before.entry_reason);
    assert_eq!(p.entry_snapshot, snapshot);
}

#[test]
fn a_full_page_is_not_the_last_one() {
    let p = prediction();
    assert_eq!(read_until(&p, 2000), 2000);
    assert_eq!(read_until(&p, 70000), 61000);
    let mut held = prediction();
    assert!(!resolve(&mut held, &[quote(1, 2000, 100., 100.01)], 2500));
    let mut done = prediction();
    assert!(resolve(&mut done, &[quote(1, 2000, 104., 104.01)], 2500));
    let page: Vec<Quote> = (0..5000).map(|n| quote(n, 1500, 100., 100.01)).collect();
    let mut backlog = prediction();
    assert!(!resolve(&mut backlog, &page, 90000));
    assert_eq!(backlog.cursor_id, 4999);
}

#[test]
fn positions_of_the_old_model_close_at_gross_prices() {
    let mut p = prediction();
    p.config_id = "legacy".into();
    p.horizon_secs = 7200;
    assert_eq!(legacy_until(&p), 1000 + 3600 * 1000);
    assert_eq!(crossing_levels(&p), (num(103.), num(99.)));
    assert!(crossing_won(&p, num(103.)));
    assert!(!crossing_won(&p, num(99.)));
    let won = resolve_legacy(&p, 5000, Some((4000, num(104.))), None).unwrap();
    assert_eq!(won.status, "WIN");
    assert_eq!(won.at, 4000);
    assert!((val(won.pnl_bps) - 400.).abs() < 1e-9);
    let lost = resolve_legacy(&p, 5000, Some((4000, num(98.))), None).unwrap();
    assert_eq!(lost.status, "LOSS");
    assert!(resolve_legacy(&p, 5000, None, Some(num(100.))).is_none());
    assert!(resolve_legacy(&p, 4_000_000, None, None).is_none());
    let timeout = resolve_legacy(&p, 4_000_000, None, Some(num(101.))).unwrap();
    assert_eq!(timeout.status, "TIMEOUT");
    assert_eq!(timeout.at, 3_601_000);
    assert!((val(timeout.pnl_bps) - 100.).abs() < 1e-9);
    p.direction = "SHORT".into();
    assert_eq!(crossing_levels(&p), (num(99.), num(103.)));
}
