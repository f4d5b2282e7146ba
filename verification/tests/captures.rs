use market_lab::capture::binance;
use market_lab::capture::bybit::{self, normalize, MessageError, ReplyError};
use market_lab::capture::next_backoff;
use market_lab::model::{BusEvent, CaptureStatus, Exchange};
use market_lab::num::Num;

fn num(x: f64) -> Num {
    Num { bits: x.to_bits() }
}

fn json(text: &str) -> serde_json::Value {
    serde_json::from_str(text).unwrap()
}

#[test]
fn spot_level_one_is_an_executable_snapshot_but_full_delta_is_not() {
    let root = json(
        "{\"ts\": \"1000\", \"type\": \"snapshot\", \"data\": {\"b\": [[\"100\", \"2\"]], \"a\": [[\"100.01\", \"3\"]]}}",
    );
    let best = normalize("orderbook.1.BTCUSDT", &root, "BTCUSDT").remove(0);
    assert_eq!(best.kind, "book_ticker");
    assert_eq!(best.event_ts, 1000);
    assert_eq!(best.bid_price, Some(num(100.)));
    assert_eq!(best.ask_qty, Some(num(3.)));
    let delta = normalize("orderbook.full.BTCUSDT", &root, "BTCUSDT").remove(0);
    assert_eq!(delta.kind, "depth");
    assert_eq!(delta.price, None);
}

#[test]
fn spot_ticker_is_not_misrepresented_as_a_zero_spread_quote() {
    let root = json("{\"ts\": 1000, \"data\": {\"lastPrice\": \"100\"}}");
    let ticker = normalize("tickers.BTCUSDT", &root, "BTCUSDT").remove(0);
    assert_eq!(ticker.kind, "price_ticker");
    assert_eq!(ticker.bid_price, None);
}

#[test]
fn bybit_trades_come_one_by_one() {
    let message = "{\"topic\":\"publicTrade.BTCUSDT\",\"ts\":5,\"data\":[\
        {\"T\":1,\"S\":\"Buy\",\"v\":\"0.5\",\"p\":\"100.5\"},{\"T\":\"2\",\"S\":\"Sell\",\"v\":1,\"p\":101},{}]}";
    let events = bybit::read_message(message, "BTCUSDT", 9).unwrap();
    assert_eq!(events.len(), 3);
    assert_eq!(events[0].kind, "public_trade");
    assert_eq!((events[0].event_ts, events[0].received_ts), (1, 9));
    assert_eq!(events[0].side.as_deref(), Some("BUY"));
    assert_eq!((events[0].price, events[0].qty), (Some(num(100.5)), Some(num(0.5))));
    assert_eq!(events[0].raw_json, "{\"S\":\"Buy\",\"T\":1,\"p\":\"100.5\",\"v\":\"0.5\"}");
    assert_eq!(events[1].event_ts, 2);
    assert_eq!(events[1].price, Some(num(101.)));
    assert_eq!(events[2].event_ts, 5);
    assert_eq!((events[2].price, events[2].side.clone()), (None, None));
}

#[test]
fn bybit_candles_and_lists_are_read_by_their_first_item() {
    let message = "{\"topic\":\"kline.1.BTCUSDT\",\"ts\":5,\"data\":[\
        {\"close\":\"7.5\",\"volume\":\"2\",\"timestamp\":3},{\"close\":\"9\"}]}";
    let events = bybit::read_message(message, "BTCUSDT", 9).unwrap();
    assert_eq!(events.len(), 1);
    assert_eq!(events[0].kind, "kline");
    assert_eq!(events[0].event_ts, 3);
    assert_eq!((events[0].price, events[0].qty), (Some(num(7.5)), Some(num(2.))));
    let other = bybit::read_message("{\"topic\":\"other.X\",\"data\":{}}", "BTCUSDT", 9);
    assert!(other.unwrap().is_empty());
}

#[test]
fn a_rejected_subscription_is_an_error_and_other_replies_are_not() {
    let rejected = bybit::read_message("{\"success\":false,\"ret_msg\":\"bad topic\"}", "BTCUSDT", 9);
    assert!(matches!(&rejected, Err(MessageError::Rejected(reason)) if reason == "\"bad topic\""));
    assert_eq!(
        MessageError::rejection("\"bad topic\""),
        "Bybit subscription rejected: \"bad topic\""
    );
    let unexplained = bybit::read_message("{\"success\":false}", "BTCUSDT", 9);
    assert!(matches!(&unexplained, Err(MessageError::Rejected(reason)) if reason == "null"));
    assert!(bybit::read_message("{\"op\":\"pong\"}", "BTCUSDT", 9).unwrap().is_empty());
    assert!(matches!(
        bybit::read_message("no json", "BTCUSDT", 9),
        Err(MessageError::Unreadable(_))
    ));
}

#[test]
fn a_bybit_snapshot_says_whether_it_was_granted() {
    let root = json(
        "{\"retCode\":0,\"result\":{\"ts\":12,\"b\":[[\"99\",\"1\"]],\"a\":[[\"101\",\"2\"]]}}",
    );
    let event = bybit::snapshot(&root, "BTCUSDT", 5, 9).unwrap();
    assert_eq!(event.kind, "depth_snapshot");
    assert_eq!((event.event_ts, event.received_ts), (12, 9));
    assert_eq!((event.bid_price, event.ask_qty), (Some(num(99.)), Some(num(2.))));
    let refused = json("{\"retCode\":10001,\"retMsg\":\"params error\"}");
    assert_eq!(
        bybit::snapshot(&refused, "BTCUSDT", 5, 9).unwrap_err(),
        "Bybit full depth snapshot rejected: params error"
    );
    assert_eq!(
        bybit::snapshot(&json("{}"), "BTCUSDT", 5, 9).unwrap_err(),
        "Bybit full depth snapshot rejected: unknown"
    );
    let empty = bybit::snapshot(&json("{\"retCode\":\"0\"}"), "BTCUSDT", 5, 9).unwrap();
    assert_eq!((empty.event_ts, empty.raw_json.as_str()), (5, "null"));
}

#[test]
fn bybit_is_asked_for_all_topics() {
    assert_eq!(
        bybit::subscription("BTCUSDT"),
        "{\"args\":[\"publicTrade.BTCUSDT\",\"tickers.BTCUSDT\",\"orderbook.1.BTCUSDT\",\
         \"orderbook.full.BTCUSDT\",\"kline.1.BTCUSDT\"],\"op\":\"subscribe\"}"
    );
    assert_eq!(
        bybit::snapshot_url("https://api.bybit.com", "BTCUSDT"),
        "https://api.bybit.com/v5/market/full_orderbook?category=spot&symbol=BTCUSDT"
    );
}

#[test]
fn binance_is_asked_for_all_streams() {
    assert_eq!(
        binance::stream_url("wss://x", "BTCUSDT"),
        "wss://x/stream?streams=btcusdt@trade/btcusdt@aggTrade/btcusdt@bookTicker/btcusdt@depth@100ms/btcusdt@kline_1s"
    );
    assert_eq!(
        binance::snapshot_url("https://api", "BTCUSDT"),
        "https://api/api/v3/depth?symbol=BTCUSDT&limit=5000"
    );
}

#[test]
fn binance_messages_tell_their_events() {
    let read = |stream: &str, data: &str| {
        let message = format!("{{\"stream\":\"{stream}\",\"data\":{data}}}");
        binance::read_message(&message, "BTCUSDT", 9).unwrap()
    };
    let sale = read("btcusdt@trade", "{\"E\":5,\"T\":4,\"p\":\"100.5\",\"q\":\"2\",\"m\":true}").unwrap();
    assert_eq!((sale.kind.as_str(), sale.event_ts, sale.received_ts), ("trade", 5, 9));
    assert_eq!(sale.side.as_deref(), Some("SELL"));
    assert_eq!((sale.price, sale.qty), (Some(num(100.5)), Some(num(2.))));
    let buy = read("btcusdt@aggTrade", "{\"T\":4,\"p\":\"1\",\"q\":\"2\"}").unwrap();
    assert_eq!((buy.kind.as_str(), buy.event_ts), ("agg_trade", 4));
    assert_eq!(buy.side.as_deref(), Some("BUY"));
    let best = read(
        "btcusdt@bookTicker",
        "{\"b\":\"100\",\"B\":\"1\",\"a\":\"101\",\"A\":\"2\"}",
    )
    .unwrap();
    assert_eq!((best.kind.as_str(), best.event_ts), ("book_ticker", 9));
    assert_eq!(best.price, Some(num(100.5)));
    assert_eq!((best.bid_qty, best.ask_qty), (Some(num(1.)), Some(num(2.))));
    let depth = read("btcusdt@depth@100ms", "{\"E\":5,\"b\":[[\"99\",\"1\"]],\"a\":[]}").unwrap();
    assert_eq!(depth.kind, "depth");
    assert_eq!((depth.bid_price, depth.ask_price, depth.price), (Some(num(99.)), None, None));
    let candle = read("btcusdt@kline_1s", "{\"E\":5,\"k\":{\"T\":7,\"c\":\"3\",\"v\":\"4\"}}").unwrap();
    assert_eq!((candle.kind.as_str(), candle.event_ts), ("kline", 7));
    assert_eq!((candle.price, candle.qty), (Some(num(3.)), Some(num(4.))));
    assert!(read("btcusdt@other", "{}").is_none());
    assert!(binance::read_message("{\"result\":null,\"id\":1}", "BTCUSDT", 9).unwrap().is_none());
    let error = binance::read_message("{", "BTCUSDT", 9).unwrap_err();
    assert_eq!(error.message, "EOF while parsing an object at line 1 column 1");
    let now = binance::normalize("x@trade", &json("{\"p\":1}"), "BTCUSDT").unwrap();
    assert_eq!(now.event_ts, now.received_ts);
    assert!(now.received_ts > 1_600_000_000_000);
    assert!(binance::normalize("x", &json("{}"), "BTCUSDT").is_none());
}

#[test]
fn a_binance_snapshot_keeps_its_raw_text() {
    let data = json("{\"lastUpdateId\":7,\"bids\":[[\"99\",\"1\"]],\"asks\":[[\"101\",\"2\"]]}");
    let event = binance::snapshot(&data, "BTCUSDT", 9);
    assert_eq!(event.kind, "depth_snapshot");
    assert_eq!((event.event_ts, event.received_ts), (9, 9));
    assert_eq!((event.bid_price, event.ask_qty), (Some(num(99.)), Some(num(2.))));
    assert_eq!(event.raw_json, data.to_string());
}

#[test]
fn waits_between_attempts_double_up_to_half_a_minute() {
    let mut wait = 1;
    let mut seen = Vec::new();
    for _ in 0..7 {
        seen.push(wait);
        wait = next_backoff(wait);
    }
    assert_eq!(seen, vec![1, 2, 4, 8, 16, 30, 30]);
    assert_eq!(next_backoff(u64::MAX), 30);
}

#[test]
fn a_status_follows_its_capture() {
    let mut status = CaptureStatus::new(Exchange::Bybit);
    assert!(!status.running);
    assert_eq!(status.symbol, "BTCUSDT");
    status.note_start("ETHUSDT", 5);
    assert!(status.running);
    assert_eq!((status.symbol.as_str(), status.started_at), ("ETHUSDT", Some(5)));
    status.note_error("lost");
    assert_eq!(status.last_error.as_deref(), Some("lost"));
    let root = json("{\"ts\":1,\"data\":{\"b\":[[\"100\",\"2\"]],\"a\":[[\"101\",\"3\"]]}}");
    let mut best = bybit::normalize_at("orderbook.1.X", &root, "X", 7).remove(0);
    status.note_event(&best);
    assert_eq!((status.messages, status.last_event_at), (1, Some(7)));
    assert_eq!(status.last_price, Some(num(100.5)));
    assert!(status.last_error.is_none());
    best.price = None;
    best.bid_price = Some(num(200.));
    best.ask_price = Some(num(202.));
    status.note_event(&best);
    assert_eq!(status.last_price, Some(num(201.)));
    best.kind = "depth".into();
    best.bid_price = Some(num(1.));
    status.messages = u64::MAX;
    status.note_event(&best);
    assert_eq!(status.last_price, Some(num(201.)));
    assert_eq!(status.messages, u64::MAX);
    status.note_stop();
    assert!(!status.running);
    assert_eq!(status.symbol, "ETHUSDT");
}

#[test]
fn watchers_get_the_time_of_receipt() {
    let data = json("{\"E\":5,\"p\":\"100.5\",\"q\":\"2\",\"m\":true}");
    let event = binance::normalize_at("x@trade", &data, "BTCUSDT", 9).unwrap();
    let told = BusEvent::from(&event);
    assert_eq!((told.ts, told.kind.as_str()), (9, "trade"));
    assert_eq!((told.price, told.side.as_deref()), (Some(num(100.5)), Some("SELL")));
}

#[test]
fn the_text_of_a_reply_gives_its_snapshot() {
    let body = "{\"bids\":[[\"99\",\"1\"]],\"asks\":[[\"101\",\"2\"]]}";
    let event = binance::read_reply(body, "BTCUSDT", 9).unwrap();
    assert_eq!((event.bid_price, event.ask_price), (Some(num(99.)), Some(num(101.))));
    assert_eq!(event.raw_json, json(body).to_string());
    assert!(binance::read_reply("<html>", "BTCUSDT", 9).is_err());

    let granted = "{\"retCode\":0,\"result\":{\"ts\":12,\"b\":[[\"99\",\"1\"]]}}";
    let event = bybit::read_reply(granted, "BTCUSDT", 5, 9).unwrap();
    assert_eq!((event.event_ts, event.received_ts), (12, 9));
    assert_eq!((event.bid_price, event.ask_price), (Some(num(99.)), None));
    let refused = bybit::read_reply("{\"retCode\":1,\"retMsg\":\"no\"}", "BTCUSDT", 5, 9);
    assert!(matches!(
        &refused,
        Err(ReplyError::Refused(message))
            if message == "Bybit full depth snapshot rejected: no"
    ));
    assert!(matches!(
        bybit::read_reply("<html>", "BTCUSDT", 5, 9),
        Err(ReplyError::Unreadable(_))
    ));
}
