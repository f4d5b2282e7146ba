use market_lab::api::{
    check_analysis_start, check_capture_start, check_lab_start, config_filter, dashboard,
    export_filename, export_format, normalize_symbol, parse_exchange, parse_limit, parse_port,
    require_admin, requested_symbol, resume_text, Format,
};
use market_lab::model::{CaptureStatus, Exchange, Prediction};
use market_lab::num::Num;
use market_lab::paper::{Diagnostics, LabConfig};

fn num(x: f64) -> Num {
    Num { bits: x.to_bits() }
}

fn val(x: Num) -> f64 {
    f64::from_bits(x.bits)
}

fn prediction() -> Prediction {
    Prediction {
        id: "position".into(),
        exchange: Exchange::Binance,
        symbol: "BTCUSDT".into(),
        created_at: 1000,
        horizon_secs: 60,
        direction: "LONG".into(),
        entry_price: num(100.),
        target_price: num(103.),
        stop_price: num(99.),
        confidence: num(0.),
        score: num(0.5),
        expected_return: num(0.),
        strategy: "flow_follow_v3".into(),
        status: "OPEN".into(),
        resolved_at: None,
        exit_price: None,
        pnl_bps: None,
        config_id: "v3-current".into(),
        fee_bps: num(10.),
        slippage_bps: num(1.),
        notional: num(1000.),
        gross_pnl_bps: None,
        cursor_id: 0,
        last_quote_ts: 1000,
        mark_price: Some(num(100.)),
        max_gap_ms: 15000,
        entry_reason: "Test fixture, not market evidence".into(),
        entry_snapshot: None,
        execution_audit: None,
    }
}

fn running(exchange: Exchange, symbol: &str) -> CaptureStatus {
    let mut status = CaptureStatus::new(exchange);
    status.note_start(symbol, 1);
    status
}

#[test]
fn exchanges_and_symbols_are_checked() {
    assert_eq!(parse_exchange("BinAnce").unwrap(), Exchange::Binance);
    assert_eq!(parse_exchange("bybit").unwrap(), Exchange::Bybit);
    let error = parse_exchange("kraken").unwrap_err();
    assert_eq!((error.status, error.message.as_str()), (400, "exchange must be binance or bybit"));
    assert_eq!(normalize_symbol(" ethusdt\n").unwrap(), "ETHUSDT");
    for bad in ["", "abcd", "btc/usdt", "ABCDEFGHIJKLMNOPQRSTUVWXY", "btcusdté"] {
        let error = normalize_symbol(bad).unwrap_err();
        assert_eq!((error.status, error.message.as_str()), (400, "invalid symbol"));
    }
    assert_eq!(normalize_symbol("ABCDEFGHIJKLMNOPQRSTUVWX").unwrap().len(), 24);
    assert_eq!(requested_symbol(None).unwrap(), "BTCUSDT");
    assert_eq!(requested_symbol(Some("solusdt")).unwrap(), "SOLUSDT");
    assert!(requested_symbol(Some("x")).is_err());
    let unsupported = Exchange::from_str("Kraken").unwrap_err();
    assert_eq!(unsupported.message(), "unsupported exchange: kraken");
    for exchange in [Exchange::Binance, Exchange::Bybit] {
        assert_eq!(Exchange::from_str(exchange.name()).unwrap(), exchange);
        assert_eq!(exchange.peer().peer(), exchange);
    }
    let once = normalize_symbol(" ethUsdt ").unwrap();
    assert_eq!(normalize_symbol(&once).unwrap(), once);
    assert_eq!(Exchange::Bybit.name(), "bybit");
}

#[test]
fn a_running_capture_keeps_its_symbol() {
    let idle = CaptureStatus::new(Exchange::Binance);
    assert!(check_capture_start(&idle, "ETHUSDT").is_ok());
    let busy = running(Exchange::Binance, "BTCUSDT");
    assert!(check_capture_start(&busy, "BTCUSDT").is_ok());
    let error = check_capture_start(&busy, "ETHUSDT").unwrap_err();
    assert_eq!(error.status, 409);
    assert_eq!(error.message, "Stop this exchange before changing its symbol");
    let other = running(Exchange::Bybit, "ETHUSDT");
    assert!(check_lab_start(&busy, &idle, "BTCUSDT").is_ok());
    let error = check_lab_start(&busy, &other, "BTCUSDT").unwrap_err();
    assert_eq!(error.message, "Stop bybit before changing its symbol");
    let error = check_lab_start(&busy, &other, "SOLUSDT").unwrap_err();
    assert_eq!(error.message, "Stop binance before changing its symbol");
}

#[test]
fn only_a_running_capture_is_analysed() {
    let busy = running(Exchange::Binance, "BTCUSDT");
    assert_eq!(check_analysis_start(&busy, None).unwrap(), "BTCUSDT");
    assert_eq!(check_analysis_start(&busy, Some("btcusdt")).unwrap(), "BTCUSDT");
    let error = check_analysis_start(&busy, Some("ETHUSDT")).unwrap_err();
    assert_eq!((error.status, error.message.as_str()), (409, "Start capture for this symbol first"));
    let error = check_analysis_start(&busy, Some("?")).unwrap_err();
    assert_eq!((error.status, error.message.as_str()), (400, "invalid symbol"));
    let idle = CaptureStatus::new(Exchange::Binance);
    assert_eq!(check_analysis_start(&idle, None).unwrap_err().status, 409);
}

#[test]
fn protected_actions_need_the_token() {
    assert!(require_admin("secret", Some("secret")).is_ok());
    for supplied in [None, Some(""), Some("Secret"), Some("secret ")] {
        let error = require_admin("secret", supplied).unwrap_err();
        assert_eq!((error.status, error.message.as_str()), (401, "invalid admin token"));
    }
    for supplied in [None, Some("")] {
        let error = require_admin("", supplied).unwrap_err();
        assert_eq!(error.status, 503);
        assert_eq!(error.message, "admin actions are not configured on this server");
    }
}

#[test]
fn lists_are_limited() {
    for (value, limit) in [
        (None, 100),
        (Some("5"), 5),
        (Some("0"), 1),
        (Some("-7"), 1),
        (Some("501"), 500),
        (Some("x"), 100),
    ] {
        assert_eq!(parse_limit(value), limit);
    }
    assert_eq!(config_filter(None, "v3-a").as_deref(), Some("v3-a"));
    assert_eq!(config_filter(Some("legacy"), "v3-a").as_deref(), Some("legacy"));
    assert!(config_filter(Some("all"), "v3-a").is_none());
}

#[test]
fn running_captures_resume_after_an_update() {
    let idle = CaptureStatus::new(Exchange::Binance);
    let first = running(Exchange::Binance, "BTCUSDT");
    let second = running(Exchange::Bybit, "ETHUSDT");
    assert_eq!(resume_text(&idle, &idle), "");
    assert_eq!(resume_text(&first, &idle), "binance BTCUSDT\n");
    assert_eq!(resume_text(&first, &second), "binance BTCUSDT\nbybit ETHUSDT\n");
}

#[test]
fn an_export_has_a_format_and_a_name() {
    assert_eq!(export_format(None).unwrap(), Format::Json);
    assert_eq!(export_format(Some("csv")).unwrap(), Format::Csv);
    let error = export_format(Some("xml")).unwrap_err();
    assert_eq!((error.status, error.message.as_str()), (400, "Export format must be json or csv"));
    assert_eq!(
        export_filename("20240101T000000Z", 510, Format::Csv),
        "market-lab-positions-20240101T000000Z-510.csv"
    );
    assert_eq!(Format::Csv.content_type(), "text/csv; charset=utf-8");
    assert_eq!(Format::Json.content_type(), "application/json; charset=utf-8");
}

#[test]
fn the_port_is_read_as_std_reads_it() {
    for text in ["80", "+80", "-0", "-1", "65535", "65536", "", "x", "0", "99999999999999999999"] {
        assert_eq!(parse_port(Some(text)), text.parse::<u16>().unwrap_or(8080), "{text:?}");
    }
    assert_eq!(parse_port(None), 8080);
}

#[test]
fn a_page_counts_all_positions_and_shows_the_newest() {
    let mut positions: Vec<Prediction> = Vec::new();
    for n in 0..130 {
        let mut p = prediction();
        p.id = format!("p{n}");
        p.status = "WIN".into();
        p.pnl_bps = Some(num(10.));
        positions.push(p);
    }
    let d = dashboard(
        running(Exchange::Binance, "BTCUSDT"),
        true,
        7,
        positions,
        Diagnostics::default(),
        LabConfig::default(),
        "v3-current".into(),
        3,
    );
    assert_eq!(d.stats.total, 130);
    assert_eq!(val(d.stats.initial_capital), 240_000.);
    assert_eq!(d.strategies.len(), 6);
    assert_eq!(d.predictions.len(), 120);
    assert_eq!(d.predictions[119].id, "p119");
    assert_eq!((d.stored_events, d.archived_predictions), (7, 3));
    assert!(d.analysis_running);
}
