//! The messages of Binance's combined spot stream.

use super::{
    bare, bare_event, either, held_flag, held_integer, held_text, lemma_price_lies_between, mid_price, middle, nested_number,
    number, number_in, or_null, plain_flag, plain_integer, plain_text, table_number,
};
use crate::json;
use crate::json::{content, parsed, rendered, Json, Unreadable};
use crate::model::{now_ms, EventView, Exchange, MarketEvent};
use crate::num::round::{HIDDEN_BIT, INF_MAGNITUDE};
use crate::num::Num;
use crate::text;
use crate::text::{ends, holds, lowered};
use vstd::prelude::*;

verus! {

/// Where the stream is, unless set otherwise.
pub const WS_BASE: &'static str = "wss://stream.binance.com:9443";

/// Where snapshots are, unless set otherwise.
pub const REST_BASE: &'static str = "https://api.binance.com";

/// The address of the combined stream of a symbol.
pub fn stream_url(base: &str, symbol: &str) -> (r: String)
    ensures
        r@ == base@ + "/stream?streams="@ + lowered(symbol@) + "@trade/"@ + lowered(symbol@)
            + "@aggTrade/"@ + lowered(symbol@) + "@bookTicker/"@ + lowered(symbol@)
            + "@depth@100ms/"@ + lowered(symbol@) + "@kline_1s"@,
{
    let s = text::lower(symbol);
    base.to_owned().concat("/stream?streams=").concat(s.as_str()).concat("@trade/").concat(
        s.as_str(),
    ).concat("@aggTrade/").concat(s.as_str()).concat("@bookTicker/").concat(s.as_str()).concat(
        "@depth@100ms/",
    ).concat(s.as_str()).concat("@kline_1s")
}

/// The address of the depth snapshot of a symbol.
pub fn snapshot_url(base: &str, symbol: &str) -> (r: String)
    ensures
        r@ == base@ + "/api/v3/depth?symbol="@ + symbol@ + "&limit=5000"@,
{
    base.to_owned().concat("/api/v3/depth?symbol=").concat(symbol).concat("&limit=5000")
}

/// When a message says that its event happened.
pub open spec fn event_time(data: Json, received_ts: i64) -> i64 {
    match held_integer(data.member("E"@)) {
        Some(t) => t,
        None => match held_integer(data.member("T"@)) {
            Some(t) => t,
            None => received_ts,
        },
    }
}

/// The side of the taker of a trade: against a buyer who made the order it is a sale.
pub open spec fn taker_side(data: Json) -> Seq<char> {
    if held_flag(data.member("m"@)) == Some(true) {
        "SELL"@
    } else {
        "BUY"@
    }
}

/// A trade.
pub open spec fn trade_event(base: EventView, kind: Seq<char>, data: Json) -> EventView {
    EventView {
        kind,
        price: number_in(data.member("p"@)),
        qty: number_in(data.member("q"@)),
        side: Some(taker_side(data)),
        ..base
    }
}

/// The best bid and ask, with the price in the middle.
pub open spec fn quote_event(base: EventView, data: Json) -> EventView {
    let bid = number_in(data.member("b"@));
    let ask = number_in(data.member("a"@));
    EventView {
        kind: "book_ticker"@,
        bid_price: bid,
        bid_qty: number_in(data.member("B"@)),
        ask_price: ask,
        ask_qty: number_in(data.member("A"@)),
        price: middle(bid, ask),
        ..base
    }
}

/// The first number of a table under one of two names.
pub open spec fn level(data: Json, name: Seq<char>, short: Seq<char>, column: int) -> Option<Num> {
    either(
        table_number(data.member(name), 0, column),
        table_number(data.member(short), 0, column),
    )
}

/// A change of the depth.
pub open spec fn depth_event(base: EventView, data: Json) -> EventView {
    EventView {
        kind: "depth"@,
        bid_price: level(data, "bids"@, "b"@, 0),
        bid_qty: level(data, "bids"@, "b"@, 1),
        ask_price: level(data, "asks"@, "a"@, 0),
        ask_qty: level(data, "asks"@, "a"@, 1),
        ..base
    }
}

/// A candle: its close and volume, as of its own closing time.
pub open spec fn candle_event(base: EventView, data: Json) -> EventView {
    match data.member("k"@) {
        Some(candle) => EventView {
            kind: "kline"@,
            price: number_in(candle.member("c"@)),
            qty: number_in(candle.member("v"@)),
            event_ts: match held_integer(candle.member("T"@)) {
                Some(t) => t,
                None => base.event_ts,
            },
            ..base
        },
        None => EventView { kind: "kline"@, ..base },
    }
}

/// The event that a message of a stream tells; none of other streams.
pub open spec fn event_of(
    stream: Seq<char>,
    data: Json,
    symbol: Seq<char>,
    received_ts: i64,
) -> Option<EventView> {
    let base = bare(
        Exchange::Binance,
        symbol,
        "unknown"@,
        event_time(data, received_ts),
        received_ts,
        rendered(data),
    );
    if ends(stream, "@trade"@) {
        Some(trade_event(base, "trade"@, data))
    } else if ends(stream, "@aggTrade"@) {
        Some(trade_event(base, "agg_trade"@, data))
    } else if ends(stream, "@bookTicker"@) {
        Some(quote_event(base, data))
    } else if holds(stream, "@depth"@) {
        Some(depth_event(base, data))
    } else if holds(stream, "@kline_"@) {
        Some(candle_event(base, data))
    } else {
        None
    }
}

/// What an optional event says.
pub open spec fn optional_event(event: Option<MarketEvent>) -> Option<EventView> {
    match event {
        Some(e) => Some(e@),
        None => None,
    }
}

fn level_number(
    data: &serde_json::Value,
    name: &str,
    short: &str,
    column: usize,
) -> (r: Option<Num>)
    ensures
        r == level(content(*data), name@, short@, column as int),
{
    let first = nested_number(json::member(data, name), 0, column);
    if first.is_some() {
        first
    } else {
        nested_number(json::member(data, short), 0, column)
    }
}

fn read_trade(event: MarketEvent, kind: &str, data: &serde_json::Value) -> (r: MarketEvent)
    ensures
        r@ == trade_event(event@, kind@, content(*data)),
{
    let sold = match plain_flag(json::member(data, "m")) {
        Some(flag) => flag,
        None => false,
    };
    MarketEvent {
        kind: kind.to_owned(),
        price: number(json::member(data, "p")),
        qty: number(json::member(data, "q")),
        side: Some(
            if sold {
                "SELL".to_owned()
            } else {
                "BUY".to_owned()
            },
        ),
        ..event
    }
}

fn read_quote(event: MarketEvent, data: &serde_json::Value) -> (r: MarketEvent)
    ensures
        r@ == quote_event(event@, content(*data)),
{
    let bid = number(json::member(data, "b"));
    let ask = number(json::member(data, "a"));
    MarketEvent {
        kind: "book_ticker".to_owned(),
        bid_price: bid,
        bid_qty: number(json::member(data, "B")),
        ask_price: ask,
        ask_qty: number(json::member(data, "A")),
        price: mid_price(bid, ask),
        ..event
    }
}

fn read_depth(event: MarketEvent, data: &serde_json::Value) -> (r: MarketEvent)
    ensures
        r@ == depth_event(event@, content(*data)),
{
    MarketEvent {
        kind: "depth".to_owned(),
        bid_price: level_number(data, "bids", "b", 0),
        bid_qty: level_number(data, "bids", "b", 1),
        ask_price: level_number(data, "asks", "a", 0),
        ask_qty: level_number(data, "asks", "a", 1),
        ..event
    }
}

fn read_candle(event: MarketEvent, data: &serde_json::Value) -> (r: MarketEvent)
    ensures
        r@ == candle_event(event@, content(*data)),
{
    match json::member(data, "k") {
        Some(candle) => {
            let event_ts = match plain_integer(json::member(candle, "T")) {
                Some(t) => t,
                None => event.event_ts,
            };
            MarketEvent {
                kind: "kline".to_owned(),
                price: number(json::member(candle, "c")),
                qty: number(json::member(candle, "v")),
                event_ts,
                ..event
            }
        },
        None => MarketEvent { kind: "kline".to_owned(), ..event },
    }
}

/// The event that a message of a stream tells, received at a given time.
pub fn normalize_at(
    stream: &str,
    data: &serde_json::Value,
    symbol: &str,
    received_ts: i64,
) -> (r: Option<MarketEvent>)
    ensures
        optional_event(r) == event_of(stream@, content(*data), symbol@, received_ts),
{
    let event_ts = match plain_integer(json::member(data, "E")) {
        Some(t) => t,
        None => match plain_integer(json::member(data, "T")) {
            Some(t) => t,
            None => received_ts,
        },
    };
    let event = bare_event(
        Exchange::Binance,
        symbol,
        "unknown",
        event_ts,
        received_ts,
        json::render(data),
    );
    if text::ends_with(stream, "@trade") {
        Some(read_trade(event, "trade", data))
    } else if text::ends_with(stream, "@aggTrade") {
        Some(read_trade(event, "agg_trade", data))
    } else if text::ends_with(stream, "@bookTicker") {
        Some(read_quote(event, data))
    } else if text::contains(stream, "@depth") {
        Some(read_depth(event, data))
    } else if text::contains(stream, "@kline_") {
        Some(read_candle(event, data))
    } else {
        None
    }
}

/// The event that a message of a stream tells, received now.
pub fn normalize(stream: &str, data: &serde_json::Value, symbol: &str) -> (r: Option<MarketEvent>)
    ensures
        match r {
            Some(e) => event_of(stream@, content(*data), symbol@, e.received_ts) == Some(e@),
            None => forall|at: i64| #[trigger]
                event_of(stream@, content(*data), symbol@, at) is None,
        },
{
    let received_ts = now_ms();
    let event = normalize_at(stream, data, symbol, received_ts);
    proof {
        if event is None {
            assert(event_of(stream@, content(*data), symbol@, received_ts) is None);
        }
    }
    event
}

/// Only the stream of best quotes gives executable quotes. Every event keeps the text it was read
/// from.
pub proof fn lemma_quotes_come_from_the_book_ticker(
    stream: Seq<char>,
    data: Json,
    symbol: Seq<char>,
    received_ts: i64,
)
    ensures
        event_of(stream, data, symbol, received_ts) matches Some(e) ==> {
            &&& e.kind == "book_ticker"@ ==> ends(stream, "@bookTicker"@)
            &&& e.exchange == Exchange::Binance
            &&& e.symbol == symbol
            &&& e.received_ts == received_ts
            &&& e.raw_json == rendered(data)
        },
{
    reveal_strlit("book_ticker");
    reveal_strlit("trade");
    reveal_strlit("agg_trade");
    reveal_strlit("depth");
    reveal_strlit("kline");
    assert("book_ticker"@.len() == 11);
    assert("trade"@.len() == 5);
    assert("agg_trade"@.len() == 9);
    assert("depth"@.len() == 5);
    assert("kline"@.len() == 5);
}

/// What an event says is what the message says of that side: bids are bids, asks are asks, and a
/// trade is a sale exactly where the buyer made the order. Quotes and depths have no traded size,
/// and only trades have a side.
pub proof fn lemma_sides_are_kept(
    stream: Seq<char>,
    data: Json,
    symbol: Seq<char>,
    received_ts: i64,
)
    ensures
        event_of(stream, data, symbol, received_ts) matches Some(e) ==> {
            let traded = e.kind == "trade"@ || e.kind == "agg_trade"@;
            &&& traded ==> {
                &&& e.price == number_in(data.member("p"@))
                &&& e.qty == number_in(data.member("q"@))
                &&& e.side == Some("SELL"@) <==> held_flag(data.member("m"@)) == Some(true)
                &&& e.side == Some("BUY"@) <==> held_flag(data.member("m"@)) != Some(true)
                &&& e.bid_price is None && e.ask_price is None
            }
            &&& !traded ==> e.side is None
            &&& e.kind == "book_ticker"@ ==> {
                &&& e.bid_price == number_in(data.member("b"@))
                &&& e.bid_qty == number_in(data.member("B"@))
                &&& e.ask_price == number_in(data.member("a"@))
                &&& e.ask_qty == number_in(data.member("A"@))
                &&& e.qty is None
                &&& e.price is Some <==> e.bid_price is Some && e.ask_price is Some
                &&& e.price is Some && e.bid_price->0.is_positive() && e.bid_price->0.le(
                    e.ask_price->0,
                ) && e.ask_price->0.magnitude() + HIDDEN_BIT < INF_MAGNITUDE ==> {
                    &&& e.bid_price->0.le(e.price->0)
                    &&& e.price->0.le(e.ask_price->0)
                }
            }
            &&& e.kind == "depth"@ ==> {
                &&& e.price is None && e.qty is None
                &&& data.member("bids"@) is None && data.member("asks"@) is None ==> {
                    &&& e.bid_price == table_number(data.member("b"@), 0, 0)
                    &&& e.bid_qty == table_number(data.member("b"@), 0, 1)
                    &&& e.ask_price == table_number(data.member("a"@), 0, 0)
                    &&& e.ask_qty == table_number(data.member("a"@), 0, 1)
                }
            }
            &&& e.kind == "kline"@ ==> e.bid_price is None && e.ask_price is None
            &&& e.kind == "kline"@ && data.member("k"@) is Some ==> {
                &&& e.price == number_in(data.member("k"@)->0.member("c"@))
                &&& e.qty == number_in(data.member("k"@)->0.member("v"@))
            }
            &&& e.kind != "kline"@ && held_integer(data.member("E"@)) is Some ==> e.event_ts
                == held_integer(data.member("E"@))->0
        },
{
    lemma_price_lies_between(number_in(data.member("b"@)), number_in(data.member("a"@)));
    reveal_strlit("book_ticker");
    reveal_strlit("trade");
    reveal_strlit("agg_trade");
    reveal_strlit("depth");
    reveal_strlit("kline");
    reveal_strlit("SELL");
    reveal_strlit("BUY");
    assert("book_ticker"@.len() == 11);
    assert("trade"@.len() == 5 && "trade"@[0] == 't');
    assert("agg_trade"@.len() == 9);
    assert("depth"@.len() == 5 && "depth"@[0] == 'd');
    assert("kline"@.len() == 5 && "kline"@[0] == 'k');
    assert("SELL"@.len() == 4 && "BUY"@.len() == 3);
}

/// What a message says: which stream it is of, and its event.
pub open spec fn message_event(root: Json, symbol: Seq<char>, received_ts: i64) -> Option<
    EventView,
> {
    let stream = match held_text(root.member("stream"@)) {
        Some(s) => s,
        None => ""@,
    };
    event_of(stream, or_null(root.member("data"@)), symbol, received_ts)
}

/// The event that a message tells, received at a given time.
pub fn read_value(root: &serde_json::Value, symbol: &str, received_ts: i64) -> (r: Option<
    MarketEvent,
>)
    ensures
        optional_event(r) == message_event(content(*root), symbol@, received_ts),
{
    let stream = match plain_text(json::member(root, "stream")) {
        Some(s) => s,
        None => "",
    };
    match json::member(root, "data") {
        Some(data) => normalize_at(stream, data, symbol, received_ts),
        None => normalize_at(stream, &json::null(), symbol, received_ts),
    }
}

/// The event that the text of a message tells, received at a given time.
pub fn read_message(message: &str, symbol: &str, received_ts: i64) -> (r: Result<
    Option<MarketEvent>,
    Unreadable,
>)
    ensures
        match r {
            Ok(event) => parsed(message@) is Ok && optional_event(event) == message_event(
                parsed(message@)->Ok_0,
                symbol@,
                received_ts,
            ),
            Err(error) => parsed(message@) == Err::<Json, Seq<char>>(error.message@),
        },
{
    match json::parse(message) {
        Ok(root) => Ok(read_value(&root, symbol, received_ts)),
        Err(error) => Err(error),
    }
}

/// A depth snapshot.
pub open spec fn snapshot_event(data: Json, symbol: Seq<char>, ts: i64) -> EventView {
    EventView {
        bid_price: table_number(data.member("bids"@), 0, 0),
        bid_qty: table_number(data.member("bids"@), 0, 1),
        ask_price: table_number(data.member("asks"@), 0, 0),
        ask_qty: table_number(data.member("asks"@), 0, 1),
        ..bare(Exchange::Binance, symbol, "depth_snapshot"@, ts, ts, rendered(data))
    }
}

/// The event of a depth snapshot, received at a given time.
pub fn snapshot(data: &serde_json::Value, symbol: &str, ts: i64) -> (r: MarketEvent)
    ensures
        r@ == snapshot_event(content(*data), symbol@, ts),
{
    let event = bare_event(
        Exchange::Binance,
        symbol,
        "depth_snapshot",
        ts,
        ts,
        json::render(data),
    );
    MarketEvent {
        bid_price: nested_number(json::member(data, "bids"), 0, 0),
        bid_qty: nested_number(json::member(data, "bids"), 0, 1),
        ask_price: nested_number(json::member(data, "asks"), 0, 0),
        ask_qty: nested_number(json::member(data, "asks"), 0, 1),
        ..event
    }
}

/// The event of the reply with a depth snapshot, from its text, received at a given time.
pub fn read_reply(body: &str, symbol: &str, ts: i64) -> (r: Result<MarketEvent, Unreadable>)
    ensures
        match r {
            Ok(event) => parsed(body@) is Ok && event@ == snapshot_event(
                parsed(body@)->Ok_0,
                symbol@,
                ts,
            ),
            Err(error) => parsed(body@) == Err::<Json, Seq<char>>(error.message@),
        },
{
    match json::parse(body) {
        Ok(data) => Ok(snapshot(&data, symbol, ts)),
        Err(error) => Err(error),
    }
}

} // verus!
