use market_lab::db::query::{configuration, export_query, is_wanted, Part};
use market_lab::db::schema::{migrations, LATER_COLUMNS};
use market_lab::db::writer::{Arrival, Phase, Step, Writer, BATCH};
use market_lab::db::{read_snapshot, write_snapshot, Quote};
use market_lab::export::ExportFilters;
use market_lab::model::{Exchange, MarketEvent, Prediction};
use market_lab::num::Num;

fn num(x: f64) -> Num {
    Num { bits: x.to_bits() }
}

fn val(x: Num) -> f64 {
    f64::from_bits(x.bits)
}

fn prediction() -> Prediction {
    Prediction {
        id: "position".into(),
        exchange: Exchange::Binance,
        symbol: "BTCUSDT".into(),
        created_at: 1000,
        horizon_secs: 60,
        direction: "LONG".into(),
        entry_price: num(100.),
        target_price: num(103.),
        stop_price: num(99.),
        confidence: num(0.),
        score: num(0.5),
        expected_return: num(0.),
        strategy: "flow_follow_v3".into(),
        status: "OPEN".into(),
        resolved_at: None,
        exit_price: None,
        pnl_bps: None,
        config_id: "v3-current".into(),
        fee_bps: num(10.),
        slippage_bps: num(1.),
        notional: num(1000.),
        gross_pnl_bps: None,
        cursor_id: 0,
        last_quote_ts: 1000,
        mark_price: Some(num(100.)),
        max_gap_ms: 15000,
        entry_reason: "Test fixture, not market evidence".into(),
        entry_snapshot: None,
        execution_audit: None,
    }
}

fn event(ts: i64) -> MarketEvent {
    MarketEvent {
        exchange: Exchange::Binance,
        symbol: "BTCUSDT".into(),
        kind: "trade".into(),
        event_ts: ts,
        received_ts: ts,
        price: Some(num(100.)),
        qty: Some(num(3.)),
        side: Some("BUY".into()),
        bid_price: None,
        bid_qty: None,
        ask_price: None,
        ask_qty: None,
        raw_json: "{}".into(),
    }
}

fn written(parts: &[Part]) -> String {
    parts
        .iter()
        .map(|part| match part {
            Part::Sql(words) => words.to_string(),
            Part::Text(value) => format!("[{value}]"),
            Part::Number(value) => format!("<{value}>"),
        })
        .collect()
}

#[test]
fn an_export_asks_for_one_position_too_many() {
    assert_eq!(
        written(&export_query(&ExportFilters::default())),
        "SELECT * FROM predictions WHERE 1=1 ORDER BY created_at, id LIMIT <25001>"
    );
}

#[test]
fn every_filter_is_a_bound_condition() {
    let filters = ExportFilters {
        exchange: Some(Exchange::Bybit),
        symbol: Some("BTCUSDT".into()),
        strategy: Some("'; DROP TABLE predictions".into()),
        horizon_secs: Some(300),
        status: Some("WIN".into()),
        config_id: Some("legacy".into()),
        from_ms: Some(1010),
        to_ms: Some(1030),
    };
    assert_eq!(
        written(&export_query(&filters)),
        "SELECT * FROM predictions WHERE 1=1 AND exchange = [bybit] AND symbol = [BTCUSDT] \
         AND strategy = ['; DROP TABLE predictions] AND config_id = [legacy] AND status = [WIN] \
         AND horizon_secs = <300> AND created_at >= <1010> AND created_at < <1030> \
         ORDER BY created_at, id LIMIT <25001>"
    );
}

#[test]
fn only_configurations_of_the_positions_are_exported() {
    let positions = vec![prediction()];
    assert!(is_wanted(&positions, "v3-current"));
    assert!(!is_wanted(&positions, "other"));
    assert!(!is_wanted(&vec![], "v3-current"));
    let value = configuration("v3-current", 7, "{\"fee\":1.5}").unwrap();
    assert_eq!(
        value.to_string(),
        "{\"id\":\"v3-current\",\"parameters\":{\"fee\":1.5},\"registered_at\":7}"
    );
    assert!(configuration("x", 7, "{").is_err());
}

#[test]
fn an_old_table_gets_what_it_lacks_and_a_current_one_nothing() {
    let first: Vec<String> = vec!["id".into(), "status".into()];
    let statements = migrations(&first);
    assert_eq!(statements.len(), 13);
    assert_eq!(
        statements[0],
        "ALTER TABLE predictions ADD COLUMN strategy TEXT NOT NULL DEFAULT 'normal'"
    );
    assert_eq!(
        statements[12],
        "ALTER TABLE predictions ADD COLUMN execution_audit TEXT"
    );
    let mut half = first.clone();
    half.push("config_id".into());
    half.push("strategy".into());
    assert_eq!(migrations(&half), statements[2..].to_vec());
    let mut full = first;
    for (name, _) in LATER_COLUMNS {
        full.push(name.into());
    }
    assert!(migrations(&full).is_empty());
}

#[test]
fn a_missing_price_makes_no_quote() {
    let whole = Quote::from_columns(
        1,
        2000,
        2000,
        Some(num(99.)),
        Some(num(100.)),
        Some(num(1.)),
        Some(num(2.)),
    );
    assert!(whole.valid());
    assert_eq!(whole.exit_price("LONG"), num(99.));
    assert_eq!(whole.exit_price("SHORT"), num(100.));
    assert_eq!(whole.entry_qty("LONG"), num(2.));
    assert_eq!(whole.exit_qty("LONG"), num(1.));
    let partial = Quote::from_columns(1, 2000, 2000, None, Some(num(100.)), None, None);
    assert_eq!(partial.bid, num(0.));
    assert!(!partial.valid());
    let mut late = whole;
    late.event_ts = late.ts - 5001;
    assert!(!late.valid());
    late.event_ts = late.ts + 1000;
    assert!(late.valid());
    late.bid = num(f64::INFINITY);
    assert!(!late.valid());
}

#[test]
fn snapshots_are_stored_as_text() {
    assert!(read_snapshot(None).unwrap().is_none());
    assert!(read_snapshot(Some("{".into())).is_err());
    let value = read_snapshot(Some("{\"features\": {\"flow_60s\": 0.65}}".into())).unwrap();
    assert_eq!(
        write_snapshot(&value).as_deref(),
        Some("{\"features\":{\"flow_60s\":0.65}}")
    );
    assert!(write_snapshot(&None).is_none());
}

#[test]
fn events_are_gathered_until_the_batch_is_full() {
    let mut writer = Writer::new();
    assert_eq!(writer.receive(Arrival::Event(event(0))), Step::Begin);
    for n in 1..BATCH - 1 {
        assert_eq!(writer.receive(Arrival::Event(event(n as i64))), Step::Gather);
    }
    assert_eq!(writer.receive(Arrival::Event(event(-1))), Step::Write);
    assert_eq!(writer.batch.len(), 256);
    assert_eq!(writer.phase, Phase::Writing);
    assert_eq!(writer.written(true), Step::Await);
    assert!(writer.batch.is_empty());
}

#[test]
fn a_failed_write_is_repeated_before_anything_is_acknowledged() {
    let mut writer = Writer::new();
    assert_eq!(writer.receive(Arrival::Flush), Step::Acknowledge);
    writer.receive(Arrival::Event(event(1)));
    writer.receive(Arrival::Event(event(2)));
    assert_eq!(writer.receive(Arrival::Flush), Step::Write);
    assert_eq!(writer.written(false), Step::Retry);
    assert_eq!(writer.written(false), Step::Retry);
    assert_eq!(writer.batch.len(), 2);
    assert_eq!(writer.written(true), Step::Acknowledge);
    assert!(writer.batch.is_empty());
    assert_eq!(writer.receive(Arrival::Nothing), Step::Stop);
}

#[test]
fn a_batch_is_written_when_its_time_is_up() {
    let mut writer = Writer::new();
    writer.receive(Arrival::Event(event(1)));
    assert_eq!(writer.receive(Arrival::Nothing), Step::Write);
    assert_eq!(writer.written(true), Step::Await);
}
