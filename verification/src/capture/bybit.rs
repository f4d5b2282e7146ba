//! The messages of Bybit's spot stream.

use super::{
    bare, bare_event, held_flag, held_text, integer, lemma_price_lies_between, mid_price, middle,
    nested_number, number, number_in, or_null, plain_flag, plain_text, table_number, whole_in,
};
use crate::db::writer::event_views;
use crate::json;
use crate::json::{content, parsed, rendered, Json, Unreadable};
use crate::model::{now_ms, EventView, Exchange, MarketEvent};
use crate::num::round::{HIDDEN_BIT, INF_MAGNITUDE};
use crate::text;
use crate::text::{begins, raised};
use vstd::prelude::*;

verus! {

/// Where the stream is, unless set otherwise.
pub const WS_URL: &'static str = "wss://stream.bybit.com/v5/public/spot";

/// Where snapshots are, unless set otherwise.
pub const REST_BASE: &'static str = "https://api.bybit.com";

/// After how many seconds without a message a connection counts as lost.
pub const SILENCE_SECS: u64 = 60;

/// The kinds of topics that a capture subscribes to.
pub const TOPICS: [&'static str; 5] = [
    "publicTrade.",
    "tickers.",
    "orderbook.1.",
    "orderbook.full.",
    "kline.1.",
];

/// What is sent to subscribe to the topics of a symbol.
pub open spec fn subscription_content(symbol: Seq<char>) -> Json {
    Json::Members(
        json::members_of(
            seq![
                ("op"@, Json::Text("subscribe"@)),
                (
                    "args"@,
                    Json::List(Seq::new(5, |i: int| Json::Text(TOPICS@[i]@ + symbol))),
                ),
            ],
        ),
    )
}

/// The text that is sent to subscribe to the topics of a symbol.
pub fn subscription(symbol: &str) -> (r: String)
    ensures
        r@ == rendered(subscription_content(symbol@)),
{
    let mut topics: Vec<serde_json::Value> = Vec::new();
    for n in 0..5
        invariant
            topics@.len() == n,
            forall|i: int|
                0 <= i < n ==> content(#[trigger] topics@[i]) == Json::Text(TOPICS@[i]@ + symbol@),
    {
        let topic = TOPICS[n].to_owned().concat(symbol);
        topics.push(json::string(topic.as_str()));
    }
    let mut members: Vec<(&'static str, serde_json::Value)> = Vec::new();
    members.push(("op", json::string("subscribe")));
    members.push(("args", json::array(topics)));
    proof {
        reveal_strlit("op");
        reveal_strlit("args");
        assert("op"@.len() == 2 && "args"@.len() == 4);
        assert(content(members@[1].1) == Json::List(
            Seq::new(5, |i: int| Json::Text(TOPICS@[i]@ + symbol@)),
        )) by {
            assert(Seq::new(topics@.len(), |i: int| content(topics@[i])) =~= Seq::new(
                5,
                |i: int| Json::Text(TOPICS@[i]@ + symbol@),
            ));
        }
        assert(json::member_contents(members@) =~= seq![
            ("op"@, Json::Text("subscribe"@)),
            ("args"@, content(members@[1].1)),
        ]);
    }
    json::render(&json::object(members))
}

/// The address of the full depth snapshot of a symbol.
pub fn snapshot_url(base: &str, symbol: &str) -> (r: String)
    ensures
        r@ == base@ + "/v5/market/full_orderbook?category=spot&symbol="@ + symbol@,
{
    base.to_owned().concat("/v5/market/full_orderbook?category=spot&symbol=").concat(symbol)
}

/// When a message says that its events happened.
pub open spec fn message_time(root: Json, received_ts: i64) -> i64 {
    match whole_in(root.member("ts"@)) {
        Some(t) => t,
        None => received_ts,
    }
}

/// A trade of a message.
pub open spec fn trade_event(
    trade: Json,
    symbol: Seq<char>,
    message_ts: i64,
    received_ts: i64,
) -> EventView {
    EventView {
        price: number_in(trade.member("p"@)),
        qty: number_in(trade.member("v"@)),
        side: match held_text(trade.member("S"@)) {
            Some(side) => Some(raised(side)),
            None => None,
        },
        ..bare(
            Exchange::Bybit,
            symbol,
            "public_trade"@,
            match whole_in(trade.member("T"@)) {
                Some(t) => t,
                None => message_ts,
            },
            received_ts,
            rendered(trade),
        )
    }
}

/// The trades of a message, in its order.
pub open spec fn trade_events(
    data: Json,
    symbol: Seq<char>,
    message_ts: i64,
    received_ts: i64,
) -> Seq<EventView> {
    match data.list() {
        Some(items) => Seq::new(
            items.len(),
            |i: int| trade_event(items[i], symbol, message_ts, received_ts),
        ),
        None => Seq::empty(),
    }
}

/// What a message is about: its data, or the first item where the data is a list.
pub open spec fn subject(data: Json) -> Json {
    match data.list() {
        Some(items) => if items.len() > 0 {
            items[0]
        } else {
            Json::Null
        },
        None => data,
    }
}

/// The ticker: the last price, and what it tells of the best bid and ask.
pub open spec fn ticker_event(base: EventView, object: Json) -> EventView {
    EventView {
        kind: "price_ticker"@,
        price: number_in(object.member("lastPrice"@)),
        bid_price: number_in(object.member("bid1Price"@)),
        bid_qty: number_in(object.member("bid1Size"@)),
        ask_price: number_in(object.member("ask1Price"@)),
        ask_qty: number_in(object.member("ask1Size"@)),
        ..base
    }
}

/// The first row of both sides of a book.
pub open spec fn book_event(base: EventView, kind: Seq<char>, object: Json) -> EventView {
    EventView {
        kind,
        bid_price: table_number(object.member("b"@), 0, 0),
        bid_qty: table_number(object.member("b"@), 0, 1),
        ask_price: table_number(object.member("a"@), 0, 0),
        ask_qty: table_number(object.member("a"@), 0, 1),
        ..base
    }
}

/// The best bid and ask, with the price in the middle.
pub open spec fn quote_event(base: EventView, object: Json) -> EventView {
    let book = book_event(base, "book_ticker"@, object);
    EventView { price: middle(book.bid_price, book.ask_price), ..book }
}

/// A candle: its close and volume, as of its own time.
pub open spec fn candle_event(base: EventView, object: Json) -> EventView {
    EventView {
        kind: "kline"@,
        price: number_in(object.member("close"@)),
        qty: number_in(object.member("volume"@)),
        event_ts: match whole_in(object.member("timestamp"@)) {
            Some(t) => t,
            None => base.event_ts,
        },
        ..base
    }
}

/// The events that a message of a topic tells; none of other topics. The level-one book is a
/// snapshot of the best quotes; the first row of a full-depth change need not be the best one.
pub open spec fn events_of(
    topic: Seq<char>,
    root: Json,
    symbol: Seq<char>,
    received_ts: i64,
) -> Seq<EventView> {
    let data = or_null(root.member("data"@));
    let object = subject(data);
    let ts = message_time(root, received_ts);
    let base = bare(Exchange::Bybit, symbol, "unknown"@, ts, received_ts, rendered(data));
    if begins(topic, "publicTrade."@) {
        trade_events(data, symbol, ts, received_ts)
    } else if begins(topic, "tickers."@) {
        seq![ticker_event(base, object)]
    } else if begins(topic, "orderbook.1."@) {
        seq![quote_event(base, object)]
    } else if begins(topic, "orderbook."@) {
        seq![book_event(base, "depth"@, object)]
    } else if begins(topic, "kline."@) {
        seq![candle_event(base, object)]
    } else {
        Seq::empty()
    }
}

fn read_trade(
    trade: &serde_json::Value,
    symbol: &str,
    message_ts: i64,
    received_ts: i64,
) -> (r: MarketEvent)
    ensures
        r@ == trade_event(content(*trade), symbol@, message_ts, received_ts),
{
    let event_ts = match integer(json::member(trade, "T")) {
        Some(t) => t,
        None => message_ts,
    };
    let event = bare_event(
        Exchange::Bybit,
        symbol,
        "public_trade",
        event_ts,
        received_ts,
        json::render(trade),
    );
    MarketEvent {
        price: number(json::member(trade, "p")),
        qty: number(json::member(trade, "v")),
        side: match plain_text(json::member(trade, "S")) {
            Some(side) => Some(text::upper(side)),
            None => None,
        },
        ..event
    }
}

fn read_trades(
    data: &serde_json::Value,
    symbol: &str,
    message_ts: i64,
    received_ts: i64,
) -> (r: Vec<MarketEvent>)
    ensures
        event_views(r@) == trade_events(content(*data), symbol@, message_ts, received_ts),
{
    let mut events: Vec<MarketEvent> = Vec::new();
    if let Some(items) = json::list_of(data) {
        for n in 0..items.len()
            invariant
                events@.len() == n,
                forall|i: int|
                    0 <= i < n ==> (#[trigger] events@[i])@ == trade_event(
                        content(items@[i]),
                        symbol@,
                        message_ts,
                        received_ts,
                    ),
        {
            events.push(read_trade(&items[n], symbol, message_ts, received_ts));
        }
    }
    assert(event_views(events@) =~= trade_events(
        content(*data),
        symbol@,
        message_ts,
        received_ts,
    ));
    events
}

fn read_ticker(event: MarketEvent, object: &serde_json::Value) -> (r: MarketEvent)
    ensures
        r@ == ticker_event(event@, content(*object)),
{
    MarketEvent {
        kind: "price_ticker".to_owned(),
        price: number(json::member(object, "lastPrice")),
        bid_price: number(json::member(object, "bid1Price")),
        bid_qty: number(json::member(object, "bid1Size")),
        ask_price: number(json::member(object, "ask1Price")),
        ask_qty: number(json::member(object, "ask1Size")),
        ..event
    }
}

fn read_book(event: MarketEvent, kind: &str, object: &serde_json::Value) -> (r: MarketEvent)
    ensures
        r@ == book_event(event@, kind@, content(*object)),
{
    MarketEvent {
        kind: kind.to_owned(),
        bid_price: nested_number(json::member(object, "b"), 0, 0),
        bid_qty: nested_number(json::member(object, "b"), 0, 1),
        ask_price: nested_number(json::member(object, "a"), 0, 0),
        ask_qty: nested_number(json::member(object, "a"), 0, 1),
        ..event
    }
}

fn read_candle(event: MarketEvent, object: &serde_json::Value) -> (r: MarketEvent)
    ensures
        r@ == candle_event(event@, content(*object)),
{
    let event_ts = match integer(json::member(object, "timestamp")) {
        Some(t) => t,
        None => event.event_ts,
    };
    MarketEvent {
        kind: "kline".to_owned(),
        price: number(json::member(object, "close")),
        qty: number(json::member(object, "volume")),
        event_ts,
        ..event
    }
}

fn one(event: MarketEvent) -> (r: Vec<MarketEvent>)
    ensures
        event_views(r@) == seq![event@],
{
    let mut events: Vec<MarketEvent> = Vec::new();
    events.push(event);
    assert(event_views(events@) =~= seq![event@]);
    events
}

/// The events that the data of a message of a topic tells.
fn read_data(
    topic: &str,
    data: &serde_json::Value,
    symbol: &str,
    ts: i64,
    received_ts: i64,
) -> (r: Vec<MarketEvent>)
    ensures
        forall|root: Json|
            or_null(root.member("data"@)) == content(*data) && message_time(root, received_ts)
                == ts ==> event_views(r@) == #[trigger] events_of(
                topic@,
                root,
                symbol@,
                received_ts,
            ),
{
    if text::starts_with(topic, "publicTrade.") {
        return read_trades(data, symbol, ts, received_ts);
    }
    let null = json::null();
    let object = match json::list_of(data) {
        Some(items) => if items.len() > 0 {
            &items[0]
        } else {
            &null
        },
        None => data,
    };
    assert(content(*object) == subject(content(*data)));
    let event = bare_event(
        Exchange::Bybit,
        symbol,
        "unknown",
        ts,
        received_ts,
        json::render(data),
    );
    if text::starts_with(topic, "tickers.") {
        one(read_ticker(event, object))
    } else if text::starts_with(topic, "orderbook.1.") {
        let book = read_book(event, "book_ticker", object);
        let price = mid_price(book.bid_price, book.ask_price);
        one(MarketEvent { price, ..book })
    } else if text::starts_with(topic, "orderbook.") {
        one(read_book(event, "depth", object))
    } else if text::starts_with(topic, "kline.") {
        one(read_candle(event, object))
    } else {
        let none: Vec<MarketEvent> = Vec::new();
        assert(event_views(none@) =~= Seq::<EventView>::empty());
        none
    }
}

/// The events that a message of a topic tells, received at a given time.
pub fn normalize_at(
    topic: &str,
    root: &serde_json::Value,
    symbol: &str,
    received_ts: i64,
) -> (r: Vec<MarketEvent>)
    ensures
        event_views(r@) == events_of(topic@, content(*root), symbol@, received_ts),
{
    let ts = match integer(json::member(root, "ts")) {
        Some(t) => t,
        None => received_ts,
    };
    match json::member(root, "data") {
        Some(data) => read_data(topic, data, symbol, ts, received_ts),
        None => read_data(topic, &json::null(), symbol, ts, received_ts),
    }
}

/// The events that a message of a topic tells, received now.
pub fn normalize(topic: &str, root: &serde_json::Value, symbol: &str) -> (r: Vec<MarketEvent>)
    ensures
        exists|at: i64|
            event_views(r@) == #[trigger] events_of(topic@, content(*root), symbol@, at),
{
    let received_ts = now_ms();
    normalize_at(topic, root, symbol, received_ts)
}

/// Only the level-one book gives executable quotes: neither the ticker nor a change of the full
/// depth does. Every event keeps the text it was read from.
pub proof fn lemma_quotes_come_from_level_one(
    topic: Seq<char>,
    root: Json,
    symbol: Seq<char>,
    received_ts: i64,
)
    ensures
        forall|i: int|
            0 <= i < events_of(topic, root, symbol, received_ts).len() && (
            #[trigger] events_of(topic, root, symbol, received_ts)[i]).kind == "book_ticker"@
                ==> begins(topic, "orderbook.1."@),
        forall|i: int|
            0 <= i < events_of(topic, root, symbol, received_ts).len() ==> {
                let e = #[trigger] events_of(topic, root, symbol, received_ts)[i];
                let data = or_null(root.member("data"@));
                &&& e.exchange == Exchange::Bybit
                &&& e.symbol == symbol
                &&& e.received_ts == received_ts
                &&& e.raw_json == if begins(topic, "publicTrade."@) {
                    rendered(data.list()->0[i])
                } else {
                    rendered(data)
                }
            },
{
    reveal_strlit("book_ticker");
    reveal_strlit("public_trade");
    reveal_strlit("price_ticker");
    reveal_strlit("depth");
    reveal_strlit("kline");
    assert("book_ticker"@.len() == 11);
    assert("public_trade"@.len() == 12);
    assert("price_ticker"@.len() == 12);
    assert("depth"@.len() == 5);
    assert("kline"@.len() == 5);
}

/// What an event says is what the message says of that side: bids are bids, asks are asks, and a
/// trade has the side, price and size of the trade it was read from.
pub proof fn lemma_sides_are_kept(
    topic: Seq<char>,
    root: Json,
    symbol: Seq<char>,
    received_ts: i64,
)
    ensures
        forall|i: int|
            0 <= i < events_of(topic, root, symbol, received_ts).len() ==> {
                let e = #[trigger] events_of(topic, root, symbol, received_ts)[i];
                let data = or_null(root.member("data"@));
                &&& e.kind == "public_trade"@ ==> {
                    let trade = data.list()->0[i];
                    &&& e.price == number_in(trade.member("p"@))
                    &&& e.qty == number_in(trade.member("v"@))
                    &&& e.side is Some <==> held_text(trade.member("S"@)) is Some
                    &&& e.side is Some ==> e.side->0 == raised(held_text(trade.member("S"@))->0)
                    &&& e.bid_price is None && e.ask_price is None
                }
                &&& e.kind != "public_trade"@ ==> e.side is None
                &&& e.kind == "book_ticker"@ || e.kind == "depth"@ ==> {
                    let book = subject(data);
                    &&& e.bid_price == table_number(book.member("b"@), 0, 0)
                    &&& e.bid_qty == table_number(book.member("b"@), 0, 1)
                    &&& e.ask_price == table_number(book.member("a"@), 0, 0)
                    &&& e.ask_qty == table_number(book.member("a"@), 0, 1)
                    &&& e.qty is None
                }
                &&& e.kind == "depth"@ ==> e.price is None
                &&& e.kind == "book_ticker"@ ==> {
                    &&& e.price is Some <==> e.bid_price is Some && e.ask_price is Some
                    &&& e.price is Some && e.bid_price->0.is_positive() && e.bid_price->0.le(
                        e.ask_price->0,
                    ) && e.ask_price->0.magnitude() + HIDDEN_BIT < INF_MAGNITUDE ==> {
                        &&& e.bid_price->0.le(e.price->0)
                        &&& e.price->0.le(e.ask_price->0)
                    }
                }
                &&& e.kind == "price_ticker"@ ==> {
                    let ticker = subject(data);
                    &&& e.price == number_in(ticker.member("lastPrice"@))
                    &&& e.bid_price == number_in(ticker.member("bid1Price"@))
                    &&& e.bid_qty == number_in(ticker.member("bid1Size"@))
                    &&& e.ask_price == number_in(ticker.member("ask1Price"@))
                    &&& e.ask_qty == number_in(ticker.member("ask1Size"@))
                }
                &&& e.kind == "kline"@ ==> {
                    let candle = subject(data);
                    &&& e.price == number_in(candle.member("close"@))
                    &&& e.qty == number_in(candle.member("volume"@))
                    &&& e.bid_price is None && e.ask_price is None
                }
            },
{
    let book = subject(or_null(root.member("data"@)));
    lemma_price_lies_between(
        table_number(book.member("b"@), 0, 0),
        table_number(book.member("a"@), 0, 0),
    );
    reveal_strlit("book_ticker");
    reveal_strlit("public_trade");
    reveal_strlit("price_ticker");
    reveal_strlit("depth");
    reveal_strlit("kline");
    assert("book_ticker"@.len() == 11);
    assert("public_trade"@.len() == 12 && "public_trade"@[1] == 'u');
    assert("price_ticker"@.len() == 12 && "price_ticker"@[1] == 'r');
    assert("depth"@.len() == 5 && "depth"@[0] == 'd');
    assert("kline"@.len() == 5 && "kline"@[0] == 'k');
}

/// Why a message could not be taken in.
#[derive(Debug)]
pub enum MessageError {
    /// It is no JSON.
    Unreadable(Unreadable),
    /// It says that the subscription is rejected, and why, as JSON.
    Rejected(String),
}

impl MessageError {
    /// What to tell of a rejection.
    pub fn rejection(reason: &str) -> (r: String)
        ensures
            r@ == "Bybit subscription rejected: "@ + reason@,
    {
        "Bybit subscription rejected: ".to_owned().concat(reason)
    }
}

/// The topic of a message; empty where it has none.
pub open spec fn topic_of(root: Json) -> Seq<char> {
    match held_text(root.member("topic"@)) {
        Some(topic) => topic,
        None => ""@,
    }
}

/// Whether a message says that the subscription is rejected.
pub open spec fn rejects(root: Json) -> bool {
    topic_of(root).len() == 0 && held_flag(root.member("success"@)) == Some(false)
}

/// The events that a message without error tells.
pub open spec fn message_events(root: Json, symbol: Seq<char>, received_ts: i64) -> Seq<EventView> {
    if topic_of(root).len() == 0 {
        Seq::empty()
    } else {
        events_of(topic_of(root), root, symbol, received_ts)
    }
}

/// The events that a message tells, received at a given time. A message without a topic tells
/// none; where it rejects the subscription, its reason comes back as an error.
pub fn read_value(root: &serde_json::Value, symbol: &str, received_ts: i64) -> (r: Result<
    Vec<MarketEvent>,
    String,
>)
    ensures
        match r {
            Ok(events) => !rejects(content(*root)) && event_views(events@) == message_events(
                content(*root),
                symbol@,
                received_ts,
            ),
            Err(reason) => rejects(content(*root)) && reason@ == rendered(
                or_null(content(*root).member("ret_msg"@)),
            ),
        },
{
    proof {
        reveal_strlit("");
    }
    let topic = match plain_text(json::member(root, "topic")) {
        Some(topic) => topic,
        None => "",
    };
    if topic.unicode_len() == 0 {
        if let Some(success) = plain_flag(json::member(root, "success")) {
            if !success {
                let reason = match json::member(root, "ret_msg") {
                    Some(reason) => json::render(reason),
                    None => json::render(&json::null()),
                };
                return Err(reason);
            }
        }
        let none: Vec<MarketEvent> = Vec::new();
        assert(event_views(none@) =~= Seq::<EventView>::empty());
        return Ok(none);
    }
    Ok(normalize_at(topic, root, symbol, received_ts))
}

/// The events that the text of a message tells, received at a given time.
pub fn read_message(message: &str, symbol: &str, received_ts: i64) -> (r: Result<
    Vec<MarketEvent>,
    MessageError,
>)
    ensures
        match r {
            Ok(events) => {
                &&& parsed(message@) is Ok
                &&& !rejects(parsed(message@)->Ok_0)
                &&& event_views(events@) == message_events(
                    parsed(message@)->Ok_0,
                    symbol@,
                    received_ts,
                )
            },
            Err(MessageError::Rejected(reason)) => {
                &&& parsed(message@) is Ok
                &&& rejects(parsed(message@)->Ok_0)
                &&& reason@ == rendered(or_null(parsed(message@)->Ok_0.member("ret_msg"@)))
            },
            Err(MessageError::Unreadable(error)) => parsed(message@) == Err::<Json, Seq<char>>(
                error.message@,
            ),
        },
{
    match json::parse(message) {
        Ok(root) => match read_value(&root, symbol, received_ts) {
            Ok(events) => Ok(events),
            Err(reason) => Err(MessageError::Rejected(reason)),
        },
        Err(error) => Err(MessageError::Unreadable(error)),
    }
}

/// A depth snapshot.
pub open spec fn snapshot_event(
    data: Json,
    symbol: Seq<char>,
    fallback_ts: i64,
    received_ts: i64,
) -> EventView {
    EventView {
        bid_price: table_number(data.member("b"@), 0, 0),
        bid_qty: table_number(data.member("b"@), 0, 1),
        ask_price: table_number(data.member("a"@), 0, 0),
        ask_qty: table_number(data.member("a"@), 0, 1),
        ..bare(
            Exchange::Bybit,
            symbol,
            "depth_snapshot"@,
            message_time(data, fallback_ts),
            received_ts,
            rendered(data),
        )
    }
}

/// Whether a reply says that it holds what was asked for.
pub open spec fn accepted(root: Json) -> bool {
    whole_in(root.member("retCode"@)) == Some(0i64)
}

/// What a reply says is wrong.
pub open spec fn refusal(root: Json) -> Seq<char> {
    "Bybit full depth snapshot rejected: "@ + match held_text(root.member("retMsg"@)) {
        Some(text) => text,
        None => "unknown"@,
    }
}

fn read_snapshot(
    data: &serde_json::Value,
    symbol: &str,
    fallback_ts: i64,
    received_ts: i64,
) -> (r: MarketEvent)
    ensures
        r@ == snapshot_event(content(*data), symbol@, fallback_ts, received_ts),
{
    let ts = match integer(json::member(data, "ts")) {
        Some(t) => t,
        None => fallback_ts,
    };
    let event = bare_event(
        Exchange::Bybit,
        symbol,
        "depth_snapshot",
        ts,
        received_ts,
        json::render(data),
    );
    MarketEvent {
        bid_price: nested_number(json::member(data, "b"), 0, 0),
        bid_qty: nested_number(json::member(data, "b"), 0, 1),
        ask_price: nested_number(json::member(data, "a"), 0, 0),
        ask_qty: nested_number(json::member(data, "a"), 0, 1),
        ..event
    }
}

/// The event of the reply with a full depth snapshot, or what the reply says is wrong.
pub fn snapshot(
    root: &serde_json::Value,
    symbol: &str,
    fallback_ts: i64,
    received_ts: i64,
) -> (r: Result<MarketEvent, String>)
    ensures
        match r {
            Ok(event) => accepted(content(*root)) && event@ == snapshot_event(
                or_null(content(*root).member("result"@)),
                symbol@,
                fallback_ts,
                received_ts,
            ),
            Err(message) => !accepted(content(*root)) && message@ == refusal(content(*root)),
        },
{
    let code = match integer(json::member(root, "retCode")) {
        Some(code) => code,
        None => -1,
    };
    if code != 0 {
        let reason = match plain_text(json::member(root, "retMsg")) {
            Some(text) => text,
            None => "unknown",
        };
        return Err("Bybit full depth snapshot rejected: ".to_owned().concat(reason));
    }
    match json::member(root, "result") {
        Some(data) => Ok(read_snapshot(data, symbol, fallback_ts, received_ts)),
        None => Ok(read_snapshot(&json::null(), symbol, fallback_ts, received_ts)),
    }
}

/// Why a reply held no snapshot.
#[derive(Debug)]
pub enum ReplyError {
    /// It is no JSON.
    Unreadable(Unreadable),
    /// It says that it does not hold what was asked for, and why.
    Refused(String),
}

/// The event of the reply with a full depth snapshot, from its text.
pub fn read_reply(body: &str, symbol: &str, fallback_ts: i64, received_ts: i64) -> (r: Result<
    MarketEvent,
    ReplyError,
>)
    ensures
        match r {
            Ok(event) => {
                &&& parsed(body@) is Ok
                &&& accepted(parsed(body@)->Ok_0)
                &&& event@ == snapshot_event(
                    or_null(parsed(body@)->Ok_0.member("result"@)),
                    symbol@,
                    fallback_ts,
                    received_ts,
                )
            },
            Err(ReplyError::Refused(message)) => {
                &&& parsed(body@) is Ok
                &&& !accepted(parsed(body@)->Ok_0)
                &&& message@ == refusal(parsed(body@)->Ok_0)
            },
            Err(ReplyError::Unreadable(error)) => parsed(body@) == Err::<Json, Seq<char>>(
                error.message@,
            ),
        },
{
    match json::parse(body) {
        Ok(root) => match snapshot(&root, symbol, fallback_ts, received_ts) {
            Ok(event) => Ok(event),
            Err(message) => Err(ReplyError::Refused(message)),
        },
        Err(error) => Err(ReplyError::Unreadable(error)),
    }
}

} // verus!
