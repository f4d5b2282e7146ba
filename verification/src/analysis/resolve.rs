//! How the resolver moves stored positions.

use super::position::{advance_position, advanced};
use crate::audit::countable;
use crate::db::Quote;
use crate::model::{is_moment, Prediction, PredictionView};
use crate::num::Num;
use crate::paper;
use crate::text;
use vstd::prelude::*;

verus! {

/// How many stored quotes are read at once.
pub const PAGE: usize = 5000;

/// Up to which time quotes of a position count.
pub open spec fn spec_read_until(p: PredictionView, now: i64) -> int {
    if now < p.deadline() {
        now as int
    } else {
        p.deadline()
    }
}

/// Up to which time quotes of a position count.
pub fn read_until(p: &Prediction, now: i64) -> (r: i64)
    requires
        p@.timely(),
    ensures
        r == spec_read_until(p@, now),
{
    let deadline = p.created_at + p.horizon_secs * 1000;
    if now < deadline {
        now
    } else {
        deadline
    }
}

/// Whether a position can be moved through a page of stored quotes: every time within bounds, and
/// room in the counters of its audit.
pub open spec fn spec_resolvable(p: PredictionView, quotes: Seq<Quote>, now: i64) -> bool {
    &&& p.timely()
    &&& countable(p.execution_audit, quotes.len() as int)
    &&& forall|i: int| 0 <= i < quotes.len() ==> is_moment((#[trigger] quotes[i]).ts)
    &&& is_moment(now)
}

/// Whether a position can be moved through a page of stored quotes.
pub fn resolvable(p: &Prediction, quotes: &[Quote], now: i64) -> (r: bool)
    ensures
        r == spec_resolvable(p@, quotes@, now),
{
    if !p.is_timely() || !is_moment(now) {
        return false;
    }
    if let Some(audit) = &p.execution_audit {
        let more = quotes.len() as u128;
        if audit.quotes_observed as u128 + more > u64::MAX as u128
            || audit.executable_quotes as u128 + more > u64::MAX as u128
            || audit.illiquid_quotes as u128 + more > u64::MAX as u128 {
            return false;
        }
    }
    for n in 0..quotes.len()
        invariant
            forall|i: int| 0 <= i < n ==> is_moment((#[trigger] quotes@[i]).ts),
    {
        if !is_moment(quotes[n].ts) {
            assert(!is_moment(quotes@[n as int].ts));
            return false;
        }
    }
    true
}

/// Moves a position through a page of stored quotes; a page that is not full is the last one.
/// Returns whether the position is closed.
pub fn resolve(p: &mut Prediction, quotes: &[Quote], now: i64) -> (r: bool)
    requires
        spec_resolvable(old(p)@, quotes@, now),
    ensures
        final(p)@ == advanced(old(p)@, quotes@, now, quotes@.len() < PAGE),
        r == (final(p)@.status != "OPEN"@),
{
    advance_position(p, quotes, now, quotes.len() < PAGE);
    !text::same(p.status.as_str(), "OPEN")
}

/// When a position of the old model is closed at the latest: after an hour.
pub open spec fn legacy_deadline(p: PredictionView) -> int {
    p.created_at + (if p.horizon_secs < 3600 {
        p.horizon_secs as int
    } else {
        3600
    }) * 1000
}

/// The price at or above which, and the one at or below which, a position of the old model is
/// closed.
pub open spec fn barriers(p: PredictionView) -> (Num, Num) {
    if p.direction == "LONG"@ {
        (p.target_price, p.stop_price)
    } else {
        (p.stop_price, p.target_price)
    }
}

/// Whether a price reaches the target.
pub open spec fn wins_at(p: PredictionView, price: Num) -> bool {
    if p.direction == "LONG"@ {
        p.target_price.le(price)
    } else {
        price.le(p.target_price)
    }
}

/// How a position of the old model is closed.
#[derive(Debug, Clone, Copy)]
pub struct LegacyExit {
    pub status: &'static str,
    pub at: i64,
    pub price: Num,
    pub pnl_bps: Num,
}

/// How a position of the old model is closed: by the first trade at a barrier, or by the last
/// price at its deadline. The result is the gross one.
pub open spec fn legacy_exit(
    p: PredictionView,
    now: i64,
    crossing: Option<(i64, Num)>,
    last_price: Option<Num>,
) -> Option<LegacyExit> {
    match crossing {
        Some((at, price)) => Some(
            LegacyExit {
                status: if wins_at(p, price) {
                    "WIN"
                } else {
                    "LOSS"
                },
                at,
                price,
                pnl_bps: paper::gross_bps(p.direction, p.entry_price, price),
            },
        ),
        None => if now >= legacy_deadline(p) && last_price is Some {
            Some(
                LegacyExit {
                    status: "TIMEOUT",
                    at: legacy_deadline(p) as i64,
                    price: last_price->0,
                    pnl_bps: paper::gross_bps(p.direction, p.entry_price, last_price->0),
                },
            )
        } else {
            None
        },
    }
}

/// When a position of the old model is closed at the latest.
pub fn legacy_until(p: &Prediction) -> (r: i64)
    requires
        p@.timely(),
    ensures
        r == legacy_deadline(p@),
{
    let horizon = if p.horizon_secs < 3600 {
        p.horizon_secs
    } else {
        3600
    };
    p.created_at + horizon * 1000
}

/// The prices at which a position of the old model is closed.
pub fn crossing_levels(p: &Prediction) -> (r: (Num, Num))
    ensures
        r == barriers(p@),
{
    if text::same(p.direction.as_str(), "LONG") {
        (p.target_price, p.stop_price)
    } else {
        (p.stop_price, p.target_price)
    }
}

/// Whether a price reaches the target.
pub fn crossing_won(p: &Prediction, price: Num) -> (r: bool)
    ensures
        r == wins_at(p@, price),
{
    if text::same(p.direction.as_str(), "LONG") {
        p.target_price.le(price)
    } else {
        price.le(p.target_price)
    }
}

/// How a position of the old model is closed, by the first trade at a barrier and the last price
/// at the deadline, where there are such.
pub fn resolve_legacy(
    p: &Prediction,
    now: i64,
    crossing: Option<(i64, Num)>,
    last_price: Option<Num>,
) -> (r: Option<LegacyExit>)
    requires
        p@.timely(),
    ensures
        r == legacy_exit(p@, now, crossing, last_price),
{
    match crossing {
        Some((at, price)) => {
            let (gross, _) = paper::pnl(p.direction.as_str(), p.entry_price, price, Num::zero());
            let status = if crossing_won(p, price) {
                "WIN"
            } else {
                "LOSS"
            };
            Some(LegacyExit { status, at, price, pnl_bps: gross })
        },
        None => {
            let deadline = legacy_until(p);
            if now < deadline {
                return None;
            }
            match last_price {
                Some(price) => {
                    let (gross, _) = paper::pnl(
                        p.direction.as_str(),
                        p.entry_price,
                        price,
                        Num::zero(),
                    );
                    Some(LegacyExit { status: "TIMEOUT", at: deadline, price, pnl_bps: gross })
                },
                None => None,
            }
        },
    }
}

} // verus!
