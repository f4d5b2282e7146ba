use market_lab::export::csv::CsvRow;
use market_lab::export::{
    check_export_size, csv, csv_text, report, report_at, ExportFilters, ExportSnapshot,
    ExportTooLarge,
};
use market_lab::model::{Exchange, Prediction};
use market_lab::num::Num;

fn num(x: f64) -> Num {
    Num { bits: x.to_bits() }
}

fn val(x: Num) -> f64 {
    f64::from_bits(x.bits)
}

fn prediction() -> Prediction {
    Prediction {
        id: "position".into(),
        exchange: Exchange::Binance,
        symbol: "BTCUSDT".into(),
        created_at: 1000,
        horizon_secs: 60,
        direction: "LONG".into(),
        entry_price: num(100.),
        target_price: num(103.),
        stop_price: num(99.),
        confidence: num(0.),
        score: num(0.5),
        expected_return: num(0.),
        strategy: "flow_follow_v3".into(),
        status: "OPEN".into(),
        resolved_at: None,
        exit_price: None,
        pnl_bps: None,
        config_id: "v3-current".into(),
        fee_bps: num(10.),
        slippage_bps: num(1.),
        notional: num(1000.),
        gross_pnl_bps: None,
        cursor_id: 0,
        last_quote_ts: 1000,
        mark_price: Some(num(100.)),
        max_gap_ms: 15000,
        entry_reason: "Test fixture, not market evidence".into(),
        entry_snapshot: None,
        execution_audit: None,
    }
}

fn parse(items: &[(&str, &str)]) -> Result<ExportFilters, String> {
    let query: Vec<(String, String)> = items
        .iter()
        .map(|(k, v)| (k.to_string(), v.to_string()))
        .collect();
    ExportFilters::parse(&query, "v3-current")
}

fn json(text: &str) -> serde_json::Value {
    serde_json::from_str(text).unwrap()
}

#[test]
fn filters_reject_invalid_or_silently_ignored_input() {
    assert!(parse(&[("exchange", "bad")]).is_err());
    assert!(parse(&[("limit", "500")]).is_err());
    assert!(parse(&[("from_ms", "2000"), ("to_ms", "1000")]).is_err());
    assert!(parse(&[("from_ms", "1.2")]).is_err());
    assert!(parse(&[("horizon", "20")]).is_err());
    assert_eq!(
        parse(&[("config", "current")]).unwrap().config_id.as_deref(),
        Some("v3-current")
    );
    assert!(parse(&[]).unwrap().config_id.is_none());
}

#[test]
fn every_fault_of_a_filter_has_its_message() {
    let message = |items: &[(&str, &str)]| parse(items).unwrap_err();
    assert_eq!(message(&[("limit", "500")]), "Unknown export filter: limit");
    assert_eq!(message(&[("exchange", "x")]), "Exchange must be all, binance or bybit");
    assert_eq!(message(&[("symbol", "a/b?c")]), "Invalid symbol");
    assert_eq!(message(&[("strategy", "a b")]), "Invalid strategy");
    assert_eq!(message(&[("horizon", "x")]), "Invalid horizon");
    assert_eq!(
        message(&[("horizon", "61")]),
        "Horizon must be all, 60, 300, 900 or 3600 seconds"
    );
    assert_eq!(message(&[("status", "DONE")]), "Invalid position status");
    assert_eq!(message(&[("config", "a;b")]), "Invalid configuration ID");
    assert_eq!(
        message(&[("from_ms", "-1")]),
        "from_ms must be a non-negative UTC timestamp in milliseconds"
    );
    assert_eq!(
        message(&[("to_ms", "9223372036854775807")]),
        "to_ms must be a non-negative UTC timestamp in milliseconds"
    );
    assert_eq!(
        message(&[("from_ms", "5"), ("to_ms", "5")]),
        "Start must be earlier than end (end is exclusive)"
    );
}

#[test]
fn filters_are_read_as_asked() {
    let f = parse(&[
        ("format", "csv"),
        ("exchange", "ByBit"),
        ("symbol", " btcusdt "),
        ("strategy", "flow_follow_v3"),
        ("horizon", "300"),
        ("status", "win"),
        ("config", "legacy"),
        ("from_ms", "1000"),
        ("to_ms", "2000"),
    ])
    .unwrap();
    assert_eq!(f.exchange, Some(Exchange::Bybit));
    assert_eq!(f.symbol.as_deref(), Some("BTCUSDT"));
    assert_eq!(f.strategy.as_deref(), Some("flow_follow_v3"));
    assert_eq!(f.horizon_secs, Some(300));
    assert_eq!(f.status.as_deref(), Some("WIN"));
    assert_eq!(f.config_id.as_deref(), Some("legacy"));
    assert_eq!((f.from_ms, f.to_ms), (Some(1000), Some(2000)));
    let all = parse(&[("exchange", "all"), ("status", ""), ("config", "all")]).unwrap();
    assert!(all.exchange.is_none() && all.status.is_none() && all.config_id.is_none());
}

#[test]
fn the_calendar_ends_where_its_last_year_ends() {
    let last = 8_210_266_876_799_999_i64;
    let fits = |t: i64| parse(&[("to_ms", t.to_string().as_str())]).is_ok();
    assert!(fits(0));
    assert!(fits(last));
    assert!(!fits(last + 1));
    for t in [last, last + 1] {
        assert_eq!(fits(t), chrono::DateTime::from_timestamp_millis(t).is_some());
    }
}

#[test]
fn summary_separates_cost_losses_unknown_outcomes_and_configurations() {
    let mut p = prediction();
    p.status = "TIMEOUT".into();
    p.gross_pnl_bps = Some(num(5.));
    p.pnl_bps = Some(num(-15.));
    let mut gap = p.clone();
    gap.id = "gap".into();
    gap.status = "DATA_GAP".into();
    gap.pnl_bps = None;
    gap.gross_pnl_bps = None;
    let mut old = p.clone();
    old.config_id = "legacy".into();
    old.status = "WIN".into();
    old.pnl_bps = Some(num(100.));
    let r = report(
        ExportSnapshot {
            positions: vec![p, gap, old],
            configurations: vec![],
        },
        ExportFilters::default(),
    );
    assert_eq!(r.counts.losing, 1);
    assert_eq!(r.counts.unverifiable, 1);
    assert_eq!(r.counts.profitable, 1);
    assert_eq!(r.counts.fees_changed_profit_to_loss, 1);
    assert_eq!(r.groups.len(), 2);
    let g = r.groups.iter().find(|g| g.key.config_id != "legacy").unwrap();
    assert_eq!(g.counts.closed, 2);
    assert_eq!(g.counts.priced_closed, 1);
    assert_eq!(g.avg_known_net_bps, Some(num(-15.)));
}

#[test]
fn csv_escapes_text_without_converting_negative_numbers_to_text() {
    assert_eq!(csv_text("=1+1"), "\"'=1+1\"");
    assert_eq!(csv_text("  @cmd"), "\"'  @cmd\"");
    assert_eq!(csv_text("a,\"b\"\nفارسی"), "\"a,\"\"b\"\"\nفارسی\"");
    let rows = vec![CsvRow {
        config_id: "v3-current".into(),
        value: json("{\"pnl_bps\":-15.5,\"entry_reason\":\"=HYPERLINK(\\\"x\\\")\"}"),
    }];
    let text = csv(&rows, &vec![]);
    assert!(text.starts_with('\u{feff}'));
    assert!(text.contains(",-15.5,"));
    assert!(text.contains("\"'=HYPERLINK(\"\"x\"\")\""));
}

#[test]
fn no_cell_becomes_a_formula() {
    for text in ["=1", "+1", "-1", "@x", "\tx", "\rx", "\n", " \u{3000}=1", "plain", ""] {
        let cell = csv_text(text);
        let inside = cell[1..cell.len() - 1].replace("\"\"", "\"");
        assert!(!inside.trim_start().starts_with(['=', '+', '-', '@']));
        assert!(!inside.starts_with(['\t', '\r', '\n']));
        assert!(inside.ends_with(text));
    }
}

#[test]
fn a_table_has_a_row_for_every_position_and_its_configuration() {
    let rows = vec![
        CsvRow {
            config_id: "a".into(),
            value: json(
                "{\"id\":\"p1\",\"diagnosis\":{\"outcome\":\"open\",\"fees_changed_profit_to_loss\":false},\
                 \"entry_snapshot\":{\"features\":{\"flow_60s\":0.65},\"peer\":{\"microstructure_score\":0.4}},\
                 \"exit_price\":null}",
            ),
        },
        CsvRow {
            config_id: "b".into(),
            value: json("{\"id\":\"p2\"}"),
        },
    ];
    let configurations = vec![
        json("{\"id\":\"a\",\"parameters\":{\"fee\":1}}"),
        json("{\"id\":\"a\",\"parameters\":{\"fee\":2}}"),
        json("{\"parameters\":{\"fee\":3}}"),
    ];
    let text = csv(&rows, &configurations);
    let lines: Vec<&str> = text.split("\r\n").collect();
    assert_eq!(lines.len(), 4);
    assert!(lines[0].ends_with(",execution_audit_json,configuration_json"));
    assert_eq!(lines[0].split(',').count(), 54);
    assert!(lines[1].starts_with("\"p1\",,"));
    assert!(lines[1].contains(",\"open\","));
    assert!(lines[1].contains(",false,"));
    assert!(lines[1].contains(",0.65,"));
    assert!(lines[1].contains("\"{\"\"features\"\":{\"\"flow_60s\"\":0.65},"));
    assert!(lines[1].ends_with(",\"{\"\"fee\"\":2}\""));
    assert!(lines[2].starts_with("\"p2\","));
    assert!(lines[2].ends_with(','));
}

#[test]
fn an_export_is_complete_or_refused() {
    assert!(check_export_size(25_000).is_ok());
    assert!(check_export_size(25_001).is_err());
    assert_eq!(
        ExportTooLarge.message(),
        "More than 25000 positions match. Select a shorter date range, exchange or strategy; no partial file was exported."
    );
}

#[test]
fn groups_keep_all_their_characteristics_apart_and_lose_no_position() {
    let mut positions = Vec::new();
    for (n, exchange) in [Exchange::Bybit, Exchange::Binance].iter().enumerate() {
        for horizon in [900, 60] {
            for direction in ["SHORT", "LONG"] {
                for copy in 0..3 {
                    let mut p = prediction();
                    p.id = format!("{n}-{horizon}-{direction}-{copy}");
                    p.exchange = *exchange;
                    p.horizon_secs = horizon;
                    p.direction = direction.into();
                    p.status = if copy == 0 { "LOSS" } else { "WIN" }.into();
                    p.pnl_bps = Some(num(if copy == 0 { -20. } else { 40. }));
                    positions.push(p);
                }
            }
        }
    }
    let r = report_at(
        ExportSnapshot {
            positions,
            configurations: vec![],
        },
        ExportFilters::default(),
        77,
    );
    assert_eq!(r.generated_at, 77);
    assert_eq!(r.position_count, 24);
    assert_eq!(r.positions.len(), 24);
    assert_eq!(r.groups.len(), 8);
    assert_eq!(r.groups.iter().map(|g| g.counts.total).sum::<usize>(), 24);
    let keys: Vec<(String, i64, String)> = r
        .groups
        .iter()
        .map(|g| (g.key.exchange.clone(), g.key.horizon_secs, g.key.direction.clone()))
        .collect();
    let mut sorted = keys.clone();
    sorted.sort();
    assert_eq!(keys, sorted);
    for g in &r.groups {
        assert_eq!(g.counts.profitable, 2);
        assert_eq!(val(g.net_win_rate_all_closed.unwrap()), 2. / 3.);
        assert_eq!(val(g.net_win_rate_priced_closed.unwrap()), 2. / 3.);
        assert_eq!(val(g.net_bps_sum), 60.);
        assert_eq!(val(g.avg_known_net_bps.unwrap()), 20.);
        assert_eq!(val(g.known_net_pnl_quote), 6.);
        assert_eq!(g.exit_reasons.iter().map(|e| e.1).sum::<usize>(), 3);
        assert!(g.exit_reasons.windows(2).all(|w| w[0].0 < w[1].0));
    }
}

#[test]
fn missing_configurations_are_named() {
    let mut a = prediction();
    a.config_id = "zeta".into();
    let mut b = prediction();
    b.config_id = "alpha".into();
    let mut c = prediction();
    c.config_id = "known".into();
    let r = report_at(
        ExportSnapshot {
            positions: vec![a.clone(), b, c, a],
            configurations: vec![json("{\"id\":\"known\",\"parameters\":{}}")],
        },
        ExportFilters::default(),
        1,
    );
    assert_eq!(r.unavailable_configuration_ids, vec!["alpha", "zeta"]);
    assert!(r.complete);
    assert_eq!(r.kind, "market_lab_position_diagnostics");
    assert_eq!(r.notes.len(), 10);
}
