//! What the store holds and asks for.

pub mod query;
pub mod schema;
pub mod writer;

use crate::json;
use crate::json::{content, parsed, rendered, Json, Unreadable};
use crate::num::Num;
use crate::text;
use vstd::prelude::*;

verus! {

/// A best bid and ask, with the sizes shown.
#[derive(Debug, Clone, Copy, PartialEq, Eq, Structural)]
pub struct Quote {
    pub id: i64,
    pub ts: i64,
    pub event_ts: i64,
    pub bid: Num,
    pub ask: Num,
    pub bid_qty: Num,
    pub ask_qty: Num,
}

/// A number of a column, zero where the column holds none.
pub open spec fn spec_or_zero(value: Option<Num>) -> Num {
    match value {
        Some(x) => x,
        None => Num::zero(),
    }
}

/// A number of a column, zero where the column holds none.
#[verifier::when_used_as_spec(spec_or_zero)]
fn or_zero(value: Option<Num>) -> (r: Num)
    ensures
        r == spec_or_zero(value),
{
    match value {
        Some(x) => x,
        None => Num::zero(),
    }
}

impl Quote {
    /// The quote of a stored row. A missing price or size counts as zero, which no fill takes.
    pub fn from_columns(
        id: i64,
        ts: i64,
        event_ts: i64,
        bid: Option<Num>,
        ask: Option<Num>,
        bid_qty: Option<Num>,
        ask_qty: Option<Num>,
    ) -> (r: Quote)
        ensures
            r == (Quote {
                id,
                ts,
                event_ts,
                bid: spec_or_zero(bid),
                ask: spec_or_zero(ask),
                bid_qty: spec_or_zero(bid_qty),
                ask_qty: spec_or_zero(ask_qty),
            }),
    {
        Quote {
            id,
            ts,
            event_ts,
            bid: or_zero(bid),
            ask: or_zero(ask),
            bid_qty: or_zero(bid_qty),
            ask_qty: or_zero(ask_qty),
        }
    }

    /// Whether a position could be filled at this quote: positive prices and sizes, not
    /// crossed, and received within five seconds of the event and not over a second before it.
    pub open spec fn spec_valid(&self) -> bool {
        &&& self.bid.is_positive()
        &&& self.ask.is_positive()
        &&& self.bid_qty.is_positive()
        &&& self.ask_qty.is_positive()
        &&& self.bid.le(self.ask)
        &&& self.ts - 5000 <= self.event_ts <= self.ts + 1000
    }

    /// The price at which the position would be closed.
    pub open spec fn spec_exit_price(&self, direction: Seq<char>) -> Num {
        if direction == "LONG"@ {
            self.bid
        } else {
            self.ask
        }
    }

    /// The size shown against an entry.
    pub open spec fn spec_entry_qty(&self, direction: Seq<char>) -> Num {
        if direction == "LONG"@ {
            self.ask_qty
        } else {
            self.bid_qty
        }
    }

    /// The size shown against an exit.
    pub open spec fn spec_exit_qty(&self, direction: Seq<char>) -> Num {
        if direction == "LONG"@ {
            self.bid_qty
        } else {
            self.ask_qty
        }
    }

    /// Whether a position could be filled at this quote.
    pub fn valid(&self) -> (r: bool)
        ensures
            r == self.spec_valid(),
    {
        self.bid.is_positive() && self.ask.is_positive() && self.bid_qty.is_positive()
            && self.ask_qty.is_positive() && self.bid.le(self.ask) && self.event_ts as i128
            >= self.ts as i128 - 5000 && self.event_ts as i128 <= self.ts as i128 + 1000
    }

    /// The price at which the position would be closed.
    pub fn exit_price(&self, direction: &str) -> (r: Num)
        ensures
            r == self.spec_exit_price(direction@),
    {
        if text::same(direction, "LONG") {
            self.bid
        } else {
            self.ask
        }
    }

    /// The size shown against an entry.
    pub fn entry_qty(&self, direction: &str) -> (r: Num)
        ensures
            r == self.spec_entry_qty(direction@),
    {
        if text::same(direction, "LONG") {
            self.ask_qty
        } else {
            self.bid_qty
        }
    }

    /// The size shown against an exit.
    pub fn exit_qty(&self, direction: &str) -> (r: Num)
        ensures
            r == self.spec_exit_qty(direction@),
    {
        if text::same(direction, "LONG") {
            self.bid_qty
        } else {
            self.ask_qty
        }
    }
}

/// The entry snapshot of a stored row.
pub fn read_snapshot(column: Option<String>) -> (r: Result<
    Option<serde_json::Value>,
    Unreadable,
>)
    ensures
        match (column, r) {
            (None, Ok(None)) => true,
            (Some(text), Ok(Some(value))) => parsed(text@) == Ok::<Json, Seq<char>>(content(value)),
            (Some(text), Err(error)) => parsed(text@) == Err::<Json, Seq<char>>(error.message@),
            _ => false,
        },
{
    match column {
        Some(text) => match json::parse(text.as_str()) {
            Ok(value) => Ok(Some(value)),
            Err(error) => Err(error),
        },
        None => Ok(None),
    }
}

/// The column of an entry snapshot.
pub fn write_snapshot(snapshot: &Option<serde_json::Value>) -> (r: Option<String>)
    ensures
        match (*snapshot, r) {
            (None, None) => true,
            (Some(value), Some(text)) => text@ == rendered(content(value)),
            _ => false,
        },
{
    match snapshot {
        Some(value) => Some(json::render(value)),
        None => None,
    }
}

} // verus!
