//! The capture of live market data: what messages say, and how a capture stands.

pub mod binance;
pub mod bybit;

use crate::export::integer_in;
use crate::json;
use crate::json::{optional_content, Json};
use crate::model::{CaptureStatus, EventView, Exchange, MarketEvent, StatusView};
use crate::num::decimal::{decimal, spec_decimal};
use crate::num::order;
use crate::num::round::{HIDDEN_BIT, INF_MAGNITUDE};
use crate::num::Num;
use crate::text;
use vstd::prelude::*;

verus! {

/// A number that a value holds or spells.
pub open spec fn number_in(value: Option<Json>) -> Option<Num> {
    match value {
        Some(v) => match v.text() {
            Some(text) => spec_decimal(text),
            None => v.number(),
        },
        None => None,
    }
}

/// An item of a list.
pub open spec fn item_in(value: Option<Json>, at: int) -> Option<Json> {
    match value {
        Some(v) => match v.list() {
            Some(items) => if 0 <= at < items.len() {
                Some(items[at])
            } else {
                None
            },
            None => None,
        },
        None => None,
    }
}

/// A number that a text in a table spells.
pub open spec fn table_number(value: Option<Json>, row: int, column: int) -> Option<Num> {
    match item_in(item_in(value, row), column) {
        Some(v) => match v.text() {
            Some(text) => spec_decimal(text),
            None => None,
        },
        None => None,
    }
}

/// A whole number that a value holds or spells.
pub open spec fn whole_in(value: Option<Json>) -> Option<i64> {
    match value {
        Some(v) => match v.integer() {
            Some(n) => Some(n),
            None => match v.text() {
                Some(text) => integer_in(text),
                None => None,
            },
        },
        None => None,
    }
}

/// A whole number that a value holds.
pub open spec fn held_integer(value: Option<Json>) -> Option<i64> {
    match value {
        Some(v) => v.integer(),
        None => None,
    }
}

/// The text that a value holds.
pub open spec fn held_text(value: Option<Json>) -> Option<Seq<char>> {
    match value {
        Some(v) => v.text(),
        None => None,
    }
}

/// The truth value that a value holds.
pub open spec fn held_flag(value: Option<Json>) -> Option<bool> {
    match value {
        Some(v) => v.flag(),
        None => None,
    }
}

/// A value, or null where there is none.
pub open spec fn or_null(value: Option<Json>) -> Json {
    match value {
        Some(v) => v,
        None => Json::Null,
    }
}

/// The first of two numbers that there is.
pub open spec fn either(first: Option<Num>, second: Option<Num>) -> Option<Num> {
    if first is Some {
        first
    } else {
        second
    }
}

/// The price in the middle of the best bid and ask.
pub open spec fn middle(bid: Option<Num>, ask: Option<Num>) -> Option<Num> {
    match (bid, ask) {
        (Some(b), Some(a)) => Some(b.plus(a).over(Num::from_int(2))),
        _ => None,
    }
}

/// The price of a quote lies between its bid and its ask, and there is one only where there are
/// both.
pub proof fn lemma_price_lies_between(bid: Option<Num>, ask: Option<Num>)
    ensures
        middle(bid, ask) is Some <==> bid is Some && ask is Some,
        bid is Some && ask is Some && bid->0.is_positive() && bid->0.le(ask->0)
            && ask->0.magnitude() + HIDDEN_BIT < INF_MAGNITUDE ==> {
            &&& bid->0.le(middle(bid, ask)->0)
            &&& middle(bid, ask)->0.le(ask->0)
        },
{
    if bid is Some && ask is Some && bid->0.is_positive() && bid->0.le(ask->0)
        && ask->0.magnitude() + HIDDEN_BIT < INF_MAGNITUDE {
        order::lemma_middle_lies_between(bid->0, ask->0);
    }
}

/// An event without prices.
pub open spec fn bare(
    exchange: Exchange,
    symbol: Seq<char>,
    kind: Seq<char>,
    event_ts: i64,
    received_ts: i64,
    raw_json: Seq<char>,
) -> EventView {
    EventView {
        exchange,
        symbol,
        kind,
        event_ts,
        received_ts,
        price: None,
        qty: None,
        side: None,
        bid_price: None,
        bid_qty: None,
        ask_price: None,
        ask_qty: None,
        raw_json,
    }
}

/// A number that a value holds or spells.
pub fn number(value: Option<&serde_json::Value>) -> (r: Option<Num>)
    ensures
        r == number_in(optional_content(value)),
{
    match value {
        Some(v) => match json::text_of(v) {
            Some(text) => decimal(text),
            None => json::number_of(v),
        },
        None => None,
    }
}

/// An item of a list.
fn item(value: Option<&serde_json::Value>, at: usize) -> (r: Option<&serde_json::Value>)
    ensures
        optional_content(r) == item_in(optional_content(value), at as int),
{
    match value {
        Some(v) => match json::list_of(v) {
            Some(items) => if at < items.len() {
                Some(&items[at])
            } else {
                None
            },
            None => None,
        },
        None => None,
    }
}

/// A number that a text in a table spells.
pub fn nested_number(value: Option<&serde_json::Value>, row: usize, column: usize) -> (r: Option<
    Num,
>)
    ensures
        r == table_number(optional_content(value), row as int, column as int),
{
    match item(item(value, row), column) {
        Some(v) => match json::text_of(v) {
            Some(text) => decimal(text),
            None => None,
        },
        None => None,
    }
}

/// A whole number that a value holds or spells.
pub fn integer(value: Option<&serde_json::Value>) -> (r: Option<i64>)
    ensures
        r == whole_in(optional_content(value)),
{
    match value {
        Some(v) => match json::integer_of(v) {
            Some(n) => Some(n),
            None => match json::text_of(v) {
                Some(text) => text::parse_int(text),
                None => None,
            },
        },
        None => None,
    }
}

/// A whole number that a value holds.
fn plain_integer(value: Option<&serde_json::Value>) -> (r: Option<i64>)
    ensures
        r == held_integer(optional_content(value)),
{
    match value {
        Some(v) => json::integer_of(v),
        None => None,
    }
}

/// The text that a value holds.
fn plain_text(value: Option<&serde_json::Value>) -> (r: Option<&str>)
    ensures
        match r {
            Some(text) => held_text(optional_content(value)) == Some(text@),
            None => held_text(optional_content(value)) is None,
        },
{
    match value {
        Some(v) => json::text_of(v),
        None => None,
    }
}

/// The truth value that a value holds.
fn plain_flag(value: Option<&serde_json::Value>) -> (r: Option<bool>)
    ensures
        r == held_flag(optional_content(value)),
{
    match value {
        Some(v) => json::flag_of(v),
        None => None,
    }
}

/// The price in the middle of the best bid and ask.
fn mid_price(bid: Option<Num>, ask: Option<Num>) -> (r: Option<Num>)
    ensures
        r == middle(bid, ask),
{
    match (bid, ask) {
        (Some(b), Some(a)) => Some(b.plus(a).over(Num::from_int(2))),
        _ => None,
    }
}

/// An event without prices.
fn bare_event(
    exchange: Exchange,
    symbol: &str,
    kind: &str,
    event_ts: i64,
    received_ts: i64,
    raw_json: String,
) -> (r: MarketEvent)
    ensures
        r@ == bare(exchange, symbol@, kind@, event_ts, received_ts, raw_json@),
        r.side is None,
{
    MarketEvent {
        exchange,
        symbol: symbol.to_owned(),
        kind: kind.to_owned(),
        event_ts,
        received_ts,
        price: None,
        qty: None,
        side: None,
        bid_price: None,
        bid_qty: None,
        ask_price: None,
        ask_qty: None,
        raw_json,
    }
}

/// The longest wait before a capture connects again, in seconds.
pub const MAX_BACKOFF: u64 = 30;

/// The wait before the next attempt, in seconds, after a failed one.
pub open spec fn spec_next_backoff(backoff: u64) -> u64 {
    if backoff * 2 < MAX_BACKOFF {
        (backoff * 2) as u64
    } else {
        MAX_BACKOFF
    }
}

/// The wait before the next attempt, in seconds, after a failed one.
pub fn next_backoff(backoff: u64) -> (r: u64)
    ensures
        r == spec_next_backoff(backoff),
{
    if backoff < MAX_BACKOFF / 2 {
        backoff * 2
    } else {
        MAX_BACKOFF
    }
}

/// The wait after that many failures in a row, in seconds.
pub open spec fn backoff_after(failures: nat) -> u64
    decreases failures,
{
    if failures == 0 {
        1
    } else {
        spec_next_backoff(backoff_after((failures - 1) as nat))
    }
}

/// Waits never get shorter from failure to failure, and stay within their bounds.
pub proof fn lemma_backoff_is_bounded(failures: nat)
    ensures
        1 <= backoff_after(failures) <= MAX_BACKOFF,
        backoff_after(failures) <= backoff_after(failures + 1),
    decreases failures,
{
    if failures > 0 {
        lemma_backoff_is_bounded((failures - 1) as nat);
    }
}

impl StatusView {
    /// The price that an event tells: that of a trade, or the middle of the best quotes.
    pub open spec fn price_of(event: EventView) -> Option<Num> {
        if event.price is Some {
            event.price
        } else if event.kind == "book_ticker"@ {
            middle(event.bid_price, event.ask_price)
        } else {
            None
        }
    }

    /// The status after an event came.
    pub open spec fn after_event(self, event: EventView) -> StatusView {
        StatusView {
            messages: if self.messages < u64::MAX {
                (self.messages + 1) as u64
            } else {
                u64::MAX
            },
            last_event_at: Some(event.received_ts),
            last_price: either(StatusView::price_of(event), self.last_price),
            last_error: None,
            ..self
        }
    }

    /// The status once a capture starts.
    pub open spec fn after_start(self, symbol: Seq<char>, at: i64) -> StatusView {
        StatusView {
            running: true,
            symbol,
            started_at: Some(at),
            messages: 0,
            last_error: None,
            ..self
        }
    }
}

impl CaptureStatus {
    /// Takes note of an event.
    pub fn note_event(&mut self, event: &MarketEvent)
        ensures
            final(self)@ == old(self)@.after_event(event@),
    {
        self.messages = if self.messages < u64::MAX {
            self.messages + 1
        } else {
            u64::MAX
        };
        self.last_event_at = Some(event.received_ts);
        let price = if event.price.is_some() {
            event.price
        } else if text::same(event.kind.as_str(), "book_ticker") {
            mid_price(event.bid_price, event.ask_price)
        } else {
            None
        };
        if price.is_some() {
            self.last_price = price;
        }
        self.last_error = None;
    }

    /// Takes note of an error; the capture goes on.
    pub fn note_error(&mut self, message: &str)
        ensures
            final(self)@ == (StatusView { last_error: Some(message@), ..old(self)@ }),
    {
        self.last_error = Some(message.to_owned());
    }

    /// Takes note that the capture starts.
    pub fn note_start(&mut self, symbol: &str, at: i64)
        ensures
            final(self)@ == old(self)@.after_start(symbol@, at),
    {
        self.running = true;
        self.symbol = symbol.to_owned();
        self.started_at = Some(at);
        self.messages = 0;
        self.last_error = None;
    }

    /// Takes note that the capture stopped.
    pub fn note_stop(&mut self)
        ensures
            final(self)@ == (StatusView { running: false, ..old(self)@ }),
    {
        self.running = false;
    }
}

} // verus!
