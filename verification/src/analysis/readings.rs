//! What windows and features tell of the quotes and trades that they were made of.

use super::analog::tells_changes;
use super::bucket::{full_window, own_window, window, Bucket};
use super::feature::{
    bought, feature_of, has_feature, momentum, score_of, sold, spec_log_at, Feature, LogReturns,
};
use super::series::{imbalance, present, spec_greatest, spec_least, spec_total};
use super::signal::horizon_logs;
use crate::model::PointView;
use crate::num::laws;
use crate::num::order;
use crate::num::Num;
use crate::paper::HORIZONS;
use vstd::prelude::*;

verus! {

/// Whether a point is the best bid and ask of a moment, each with a size, not crossed.
pub open spec fn is_best_quote(p: PointView) -> bool {
    &&& p.kind == "book_ticker"@
    &&& p.bid_price is Some && Num::zero().lt(p.bid_price->0) && p.bid_price->0.is_finite()
    &&& p.ask_price is Some && Num::zero().lt(p.ask_price->0) && p.ask_price->0.is_finite()
    &&& p.bid_qty is Some && Num::zero().lt(p.bid_qty->0) && p.bid_qty->0.is_finite()
    &&& p.ask_qty is Some && Num::zero().lt(p.ask_qty->0) && p.ask_qty->0.is_finite()
    &&& p.bid_price->0.le(p.ask_price->0)
}

/// The middle of a quote.
pub open spec fn middle(p: PointView) -> Num {
    p.bid_price->0.plus(p.ask_price->0).over(Num::from_int(2))
}

/// Whether a point is a quote of the window that starts at `ts`.
pub open spec fn quotes_in(p: PointView, ts: int) -> bool {
    window(p.ts) == ts && is_best_quote(p)
}

/// Whether a value lies between two that are there.
pub open spec fn between(low: Option<Num>, x: Num, high: Option<Num>) -> bool {
    low is Some && high is Some && low->0.le(x) && x.le(high->0)
}

proof fn lemma_kinds_differ()
    ensures
        "book_ticker"@ != "trade"@,
        "book_ticker"@ != "public_trade"@,
        "BUY"@ != "SELL"@,
{
    reveal_strlit("book_ticker");
    reveal_strlit("trade");
    reveal_strlit("public_trade");
    reveal_strlit("BUY");
    reveal_strlit("SELL");
    assert("book_ticker"@.len() == 11 && "trade"@.len() == 5 && "public_trade"@.len() == 12);
    assert("BUY"@.len() != "SELL"@.len());
}

proof fn lemma_middle(p: PointView)
    requires
        is_best_quote(p),
    ensures
        !middle(p).is_nan(),
{
    laws::lemma_plus_grows(p.bid_price->0, p.ask_price->0);
    laws::lemma_whole_order(1, 2);
    laws::lemma_whole_order(2, 2);
    laws::lemma_whole_one();
    laws::lemma_quotient_sign(p.bid_price->0.plus(p.ask_price->0), Num::from_int(2));
}

/// Whether a window has a price, and all that goes with one, or nothing of it.
spec fn is_whole(b: Bucket) -> bool {
    if b.price is Some {
        b.quote_ts is Some && b.bid_price is Some && b.ask_price is Some && b.high_price is Some
            && b.low_price is Some && b.bid_high is Some && b.bid_low is Some && b.ask_high is Some
            && b.ask_low is Some
    } else {
        b.quote_ts is None && b.bid_price is None && b.ask_price is None && b.high_price is None
            && b.low_price is None && b.bid_high is None && b.bid_low is None && b.ask_high is None
            && b.ask_low is None
    }
}

/// Whether the extremes of a window enclose a quote.
spec fn encloses(b: Bucket, p: PointView) -> bool {
    &&& between(b.bid_low, p.bid_price->0, b.bid_high)
    &&& between(b.ask_low, p.ask_price->0, b.ask_high)
    &&& between(b.low_price, middle(p), b.high_price)
}

/// Whether a window holds everything of a quote.
spec fn holds(b: Bucket, p: PointView) -> bool {
    &&& b.price == Some(middle(p))
    &&& b.bid_price == p.bid_price
    &&& b.ask_price == p.ask_price
    &&& b.bid_qty == p.bid_qty
    &&& b.ask_qty == p.ask_qty
    &&& b.quote_ts == Some(p.ts)
}

/// Whether the extremes of a window were seen in its quotes.
spec fn was_seen(b: Bucket, points: Seq<PointView>, ts: int) -> bool {
    &&& seen_bid(points, ts, b.bid_high->0) && seen_bid(points, ts, b.bid_low->0)
    &&& seen_ask(points, ts, b.ask_high->0) && seen_ask(points, ts, b.ask_low->0)
    &&& seen_middle(points, ts, b.high_price->0)
    &&& seen_middle(points, ts, b.low_price->0)
}

/// A window with one more point: as it was, or with a further quote.
proof fn lemma_window_step(points: Seq<PointView>, ts: int)
    requires
        points.len() > 0,
        is_whole(own_window(points.drop_last(), ts)),
    ensures
        ({
            let a = own_window(points.drop_last(), ts);
            let b = own_window(points, ts);
            let p = points.last();
            &&& is_whole(b)
            &&& quotes_in(p, ts) ==> holds(b, p) && encloses(b, p)
            &&& !quotes_in(p, ts) ==> b == (Bucket {
                buy_qty: b.buy_qty,
                sell_qty: b.sell_qty,
                trade_count: b.trade_count,
                ..a
            })
            &&& b.bid_high == a.bid_high || b.bid_high == p.bid_price
            &&& b.bid_low == a.bid_low || b.bid_low == p.bid_price
            &&& b.ask_high == a.ask_high || b.ask_high == p.ask_price
            &&& b.ask_low == a.ask_low || b.ask_low == p.ask_price
            &&& b.high_price == a.high_price || b.high_price == Some(middle(p))
            &&& b.low_price == a.low_price || b.low_price == Some(middle(p))
            &&& forall|x: PointView|
                is_best_quote(x) && #[trigger] encloses(a, x) ==> encloses(b, x)
        }),
{
    lemma_kinds_differ();
    let p = points.last();
    if quotes_in(p, ts) {
        lemma_middle(p);
    }
    let a = own_window(points.drop_last(), ts);
    let b = own_window(points, ts);
    assert forall|x: PointView| is_best_quote(x) && #[trigger] encloses(a, x) implies encloses(
        b,
        x,
    ) by {
        lemma_middle(x);
    }
}

proof fn lemma_window_is_whole(points: Seq<PointView>, ts: int)
    ensures
        is_whole(own_window(points, ts)),
        own_window(points, ts).price is Some <==> exists|i: int|
            0 <= i < points.len() && quotes_in(#[trigger] points[i], ts),
    decreases points.len(),
{
    if points.len() > 0 {
        let rest = points.drop_last();
        lemma_window_is_whole(rest, ts);
        lemma_window_step(points, ts);
        if own_window(rest, ts).price is Some {
            let i = choose|i: int| 0 <= i < rest.len() && quotes_in(#[trigger] rest[i], ts);
            assert(quotes_in(points[i], ts));
        }
        if quotes_in(points.last(), ts) {
            assert(quotes_in(points[points.len() - 1], ts));
        } else if exists|i: int| 0 <= i < points.len() && quotes_in(#[trigger] points[i], ts) {
            let i = choose|i: int| 0 <= i < points.len() && quotes_in(#[trigger] points[i], ts);
            assert(quotes_in(rest[i], ts));
        }
    }
}

proof fn lemma_window_encloses(points: Seq<PointView>, ts: int, i: int)
    requires
        0 <= i < points.len(),
        quotes_in(points[i], ts),
    ensures
        encloses(own_window(points, ts), points[i]),
    decreases points.len(),
{
    let rest = points.drop_last();
    lemma_window_is_whole(rest, ts);
    lemma_window_step(points, ts);
    if i < rest.len() {
        lemma_window_encloses(rest, ts, i);
        assert(rest[i] == points[i]);
        assert(encloses(own_window(rest, ts), points[i]));
    }
}

proof fn lemma_window_holds_the_last(points: Seq<PointView>, ts: int, i: int)
    requires
        0 <= i < points.len(),
        quotes_in(points[i], ts),
        forall|j: int| i < j < points.len() ==> !quotes_in(#[trigger] points[j], ts),
    ensures
        holds(own_window(points, ts), points[i]),
    decreases points.len(),
{
    let rest = points.drop_last();
    lemma_window_is_whole(rest, ts);
    lemma_window_step(points, ts);
    if i < rest.len() {
        assert(!quotes_in(points[points.len() - 1], ts));
        assert forall|j: int| i < j < rest.len() implies !quotes_in(#[trigger] rest[j], ts) by {
            assert(!quotes_in(points[j], ts));
        }
        assert(rest[i] == points[i]);
        lemma_window_holds_the_last(rest, ts, i);
    }
}

proof fn lemma_window_was_seen(points: Seq<PointView>, ts: int)
    ensures
        own_window(points, ts).price is Some ==> was_seen(own_window(points, ts), points, ts),
    decreases points.len(),
{
    if points.len() > 0 {
        let rest = points.drop_last();
        let p = points.last();
        lemma_window_was_seen(rest, ts);
        lemma_window_is_whole(rest, ts);
        lemma_window_step(points, ts);
        assert(points =~= rest.push(p));
        lemma_seen_stays(rest, p, ts);
        if quotes_in(p, ts) {
            assert(seen_at(points, ts, points.len() - 1));
            assert(seen_bid(points, ts, p.bid_price->0));
            assert(seen_ask(points, ts, p.ask_price->0));
            assert(seen_middle(points, ts, middle(p)));
        }
    }
}

/// What a window holds of its quotes: a price exactly where there was one, each bid, ask and middle
/// between the extremes that are kept of them, which were all seen, and of the last quote
/// everything.
pub proof fn lemma_window_holds_its_quotes(points: Seq<PointView>, ts: int)
    ensures
        ({
            let b = own_window(points, ts);
            &&& b.price is Some <==> exists|i: int|
                0 <= i < points.len() && quotes_in(#[trigger] points[i], ts)
            &&& b.price is Some ==> b.quote_ts is Some
            &&& b.price is None ==> b.quote_ts is None && b.bid_price is None && b.ask_price
                is None && b.high_price is None && b.low_price is None && b.bid_high is None
                && b.bid_low is None && b.ask_high is None && b.ask_low is None
            &&& forall|i: int|
                0 <= i < points.len() && quotes_in(#[trigger] points[i], ts) ==> {
                    &&& between(b.bid_low, points[i].bid_price->0, b.bid_high)
                    &&& between(b.ask_low, points[i].ask_price->0, b.ask_high)
                    &&& between(b.low_price, middle(points[i]), b.high_price)
                }
            &&& forall|i: int|
                0 <= i < points.len() && quotes_in(#[trigger] points[i], ts) && (forall|j: int|
                    i < j < points.len() ==> !quotes_in(#[trigger] points[j], ts)) ==> {
                    &&& b.price == Some(middle(points[i]))
                    &&& b.bid_price == points[i].bid_price
                    &&& b.ask_price == points[i].ask_price
                    &&& b.bid_qty == points[i].bid_qty
                    &&& b.ask_qty == points[i].ask_qty
                    &&& b.quote_ts == Some(points[i].ts)
                }
            &&& b.price is Some ==> {
                &&& seen_bid(points, ts, b.bid_high->0) && seen_bid(points, ts, b.bid_low->0)
                &&& seen_ask(points, ts, b.ask_high->0) && seen_ask(points, ts, b.ask_low->0)
                &&& seen_middle(points, ts, b.high_price->0)
                &&& seen_middle(points, ts, b.low_price->0)
            }
        }),
{
    let b = own_window(points, ts);
    lemma_window_is_whole(points, ts);
    lemma_window_was_seen(points, ts);
    assert forall|i: int| 0 <= i < points.len() && quotes_in(
        #[trigger] points[i],
        ts,
    ) implies encloses(b, points[i]) by {
        lemma_window_encloses(points, ts, i);
    }
    assert forall|i: int|
        0 <= i < points.len() && quotes_in(#[trigger] points[i], ts) && (forall|j: int|
            i < j < points.len() ==> !quotes_in(#[trigger] points[j], ts)) implies holds(
        b,
        points[i],
    ) by {
        lemma_window_holds_the_last(points, ts, i);
    }
}

/// Whether a point is a quote of a window.
pub open spec fn seen_at(points: Seq<PointView>, ts: int, i: int) -> bool {
    0 <= i < points.len() && quotes_in(points[i], ts)
}

/// Whether a quote of a window has that bid.
pub open spec fn seen_bid(points: Seq<PointView>, ts: int, x: Num) -> bool {
    exists|i: int| #[trigger] seen_at(points, ts, i) && points[i].bid_price == Some(x)
}

/// Whether a quote of a window has that ask.
pub open spec fn seen_ask(points: Seq<PointView>, ts: int, x: Num) -> bool {
    exists|i: int| #[trigger] seen_at(points, ts, i) && points[i].ask_price == Some(x)
}

/// Whether a quote of a window has that middle.
pub open spec fn seen_middle(points: Seq<PointView>, ts: int, x: Num) -> bool {
    exists|i: int| #[trigger] seen_at(points, ts, i) && middle(points[i]) == x
}

proof fn lemma_seen_stays(rest: Seq<PointView>, p: PointView, ts: int)
    ensures
        forall|x: Num| #[trigger] seen_bid(rest, ts, x) ==> seen_bid(rest.push(p), ts, x),
        forall|x: Num| #[trigger] seen_ask(rest, ts, x) ==> seen_ask(rest.push(p), ts, x),
        forall|x: Num| #[trigger] seen_middle(rest, ts, x) ==> seen_middle(rest.push(p), ts, x),
{
    let all = rest.push(p);
    assert forall|x: Num| #[trigger] seen_bid(rest, ts, x) implies seen_bid(all, ts, x) by {
        let i = choose|i: int| #[trigger] seen_at(rest, ts, i) && rest[i].bid_price == Some(x);
        assert(seen_at(all, ts, i));
    }
    assert forall|x: Num| #[trigger] seen_ask(rest, ts, x) implies seen_ask(all, ts, x) by {
        let i = choose|i: int| #[trigger] seen_at(rest, ts, i) && rest[i].ask_price == Some(x);
        assert(seen_at(all, ts, i));
    }
    assert forall|x: Num| #[trigger] seen_middle(rest, ts, x) implies seen_middle(
        all,
        ts,
        x,
    ) by {
        let i = choose|i: int| #[trigger] seen_at(rest, ts, i) && middle(rest[i]) == x;
        assert(seen_at(all, ts, i));
    }
}

/// What a window holds of its trades: one more trade of the window adds its quantity to the bought
/// ones where the taker bought, to the sold ones where the taker sold, and is counted. It leaves
/// everything else alone, and so does one of another window in every respect.
pub proof fn lemma_window_adds_trades(points: Seq<PointView>, p: PointView, ts: int)
    requires
        p.kind == "trade"@ || p.kind == "public_trade"@,
        p.qty is Some && Num::zero().lt(p.qty->0) && p.qty->0.is_finite(),
        own_window(points, ts).trade_count < u64::MAX,
    ensures
        ({
            let a = own_window(points, ts);
            let b = own_window(points.push(p), ts);
            &&& window(p.ts) != ts ==> b == a
            &&& window(p.ts) == ts ==> {
                &&& b.trade_count == a.trade_count + 1
                &&& p.side == Some("BUY"@) ==> b.buy_qty == a.buy_qty.plus(p.qty->0)
                    && b.sell_qty == a.sell_qty
                &&& p.side == Some("SELL"@) ==> b.sell_qty == a.sell_qty.plus(p.qty->0)
                    && b.buy_qty == a.buy_qty
                &&& p.side != Some("BUY"@) && p.side != Some("SELL"@) ==> b.buy_qty == a.buy_qty
                    && b.sell_qty == a.sell_qty
                &&& b == (Bucket {
                    buy_qty: b.buy_qty,
                    sell_qty: b.sell_qty,
                    trade_count: b.trade_count,
                    ..a
                })
            }
        }),
{
    lemma_kinds_differ();
    assert(points.push(p).drop_last() =~= points);
}

/// Where a window has no quote of its own, it takes that of the window before, if this was
/// received no longer before the end of the window than allowed, and has no price otherwise. Its
/// extremes are then that one quote. Its trades are always its own.
pub proof fn lemma_window_carries_a_recent_quote(
    points: Seq<PointView>,
    first: int,
    i: nat,
    max_gap_ms: i64,
)
    ensures
        ({
            let own = own_window(points, first + 5000 * i);
            let full = full_window(points, first, i, max_gap_ms);
            let before = full_window(points, first, (i - 1) as nat, max_gap_ms);
            let recent = i > 0 && before.quote_ts is Some && first + 5000 * i + 4999
                - before.quote_ts->0 <= max_gap_ms;
            &&& full.ts == own.ts && full.buy_qty == own.buy_qty && full.sell_qty == own.sell_qty
                && full.trade_count == own.trade_count
            &&& own.price is Some ==> full == own
            &&& own.price is None && recent ==> {
                &&& full.price == before.price
                &&& full.bid_price == before.bid_price && full.ask_price == before.ask_price
                &&& full.bid_qty == before.bid_qty && full.ask_qty == before.ask_qty
                &&& full.quote_ts == before.quote_ts
                &&& full.high_price == before.price && full.low_price == before.price
                &&& full.bid_high == before.bid_price && full.bid_low == before.bid_price
                &&& full.ask_high == before.ask_price && full.ask_low == before.ask_price
            }
            &&& own.price is None && !recent ==> full.price is None
        }),
{
}

proof fn lemma_greatest(start: Num, s: Seq<Num>, x: Num)
    requires
        !start.is_nan(),
        !x.is_nan(),
    ensures
        !spec_greatest(start, s).is_nan(),
        spec_greatest(start, s).lt(x) <==> start.lt(x) && forall|i: int|
            0 <= i < s.len() ==> (#[trigger] s[i]).is_nan() || s[i].lt(x),
    decreases s.len(),
{
    if s.len() > 0 {
        let rest = s.drop_last();
        lemma_greatest(start, rest, x);
        assert forall|i: int| 0 <= i < rest.len() implies rest[i] == #[trigger] s[i] by {
        }
        if spec_greatest(start, s).lt(x) {
            assert forall|i: int| 0 <= i < s.len() implies (#[trigger] s[i]).is_nan() || s[i].lt(
                x,
            ) by {
                if i < rest.len() {
                    assert(rest[i].is_nan() || rest[i].lt(x));
                }
            }
        }
        if start.lt(x) && forall|i: int|
            0 <= i < s.len() ==> (#[trigger] s[i]).is_nan() || s[i].lt(x) {
            assert(s[s.len() - 1].is_nan() || s[s.len() - 1].lt(x));
            assert forall|i: int| 0 <= i < rest.len() implies (#[trigger] rest[i]).is_nan()
                || rest[i].lt(x) by {
                assert(s[i].is_nan() || s[i].lt(x));
            }
        }
    }
}

proof fn lemma_least(start: Num, s: Seq<Num>, x: Num)
    requires
        !start.is_nan(),
        !x.is_nan(),
    ensures
        !spec_least(start, s).is_nan(),
        x.lt(spec_least(start, s)) <==> x.lt(start) && forall|i: int|
            0 <= i < s.len() ==> (#[trigger] s[i]).is_nan() || x.lt(s[i]),
    decreases s.len(),
{
    if s.len() > 0 {
        let rest = s.drop_last();
        lemma_least(start, rest, x);
        assert forall|i: int| 0 <= i < rest.len() implies rest[i] == #[trigger] s[i] by {
        }
        if x.lt(spec_least(start, s)) {
            assert forall|i: int| 0 <= i < s.len() implies (#[trigger] s[i]).is_nan() || x.lt(
                s[i],
            ) by {
                if i < rest.len() {
                    assert(rest[i].is_nan() || x.lt(rest[i]));
                }
            }
        }
        if x.lt(start) && forall|i: int|
            0 <= i < s.len() ==> (#[trigger] s[i]).is_nan() || x.lt(s[i]) {
            assert(s[s.len() - 1].is_nan() || x.lt(s[s.len() - 1]));
            assert forall|i: int| 0 <= i < rest.len() implies (#[trigger] rest[i]).is_nan()
                || x.lt(rest[i]) by {
                assert(s[i].is_nan() || x.lt(s[i]));
            }
        }
    }
}

/// Every number that is there is among those that are there, and the other way round.
proof fn lemma_present(s: Seq<Option<Num>>)
    ensures
        forall|i: int|
            0 <= i < s.len() && (#[trigger] s[i]) is Some ==> present(s).contains(s[i]->0),
        forall|j: int|
            0 <= j < present(s).len() ==> s.contains(Some(#[trigger] present(s)[j])),
    decreases s.len(),
{
    if s.len() > 0 {
        let rest = s.drop_last();
        lemma_present(rest);
        let all = present(s);
        let some = present(rest);
        assert forall|i: int| 0 <= i < s.len() && (#[trigger] s[i]) is Some implies all.contains(
            s[i]->0,
        ) by {
            if i < rest.len() {
                assert(rest[i] is Some);
                let k = choose|k: int| 0 <= k < some.len() && some[k] == s[i]->0;
                assert(all[k] == s[i]->0);
            } else {
                assert(all[all.len() - 1] == s[i]->0);
            }
        }
        assert forall|j: int| 0 <= j < all.len() implies s.contains(
            Some(#[trigger] all[j]),
        ) by {
            if j < some.len() {
                assert(all[j] == some[j]);
                let k = choose|k: int| 0 <= k < rest.len() && rest[k] == Some(some[j]);
                assert(s[k] == Some(all[j]));
            } else {
                assert(s[s.len() - 1] == Some(all[j]));
            }
        }
    }
}

/// The breakout is upward exactly where the price is above the highest of all sixty windows before,
/// downward exactly where it is below the lowest of them and not above, and by one either way.
pub proof fn lemma_breakout_tells_the_range(buckets: Seq<Bucket>, index: int, logs: LogReturns)
    requires
        60 <= index < buckets.len(),
        Num::zero().lt(buckets[index].price->0),
        buckets[index].price->0.is_finite(),
    ensures
        ({
            let f = feature_of(buckets, index, logs);
            let price = buckets[index].price->0;
            let above = forall|i: int|
                index - 60 <= i < index && (#[trigger] buckets[i]).high_price is Some
                    ==> buckets[i].high_price->0.is_nan() || buckets[i].high_price->0.lt(price);
            let below = forall|i: int|
                index - 60 <= i < index && (#[trigger] buckets[i]).low_price is Some
                    ==> buckets[i].low_price->0.is_nan() || price.lt(buckets[i].low_price->0);
            &&& f.breakout == if above {
                Num::one()
            } else if below {
                Num::one().negated()
            } else {
                Num::zero()
            }
            &&& Num::zero().lt(f.breakout) <==> above
            &&& f.breakout.lt(Num::zero()) <==> below && !above
        }),
{
    let price = buckets[index].price->0;
    let prior = buckets.subrange(index - 60, index);
    let highs = Seq::new(prior.len(), |i: int| prior[i].high_price);
    let lows = Seq::new(prior.len(), |i: int| prior[i].low_price);
    let bottom = Num::infinity().negated();
    laws::lemma_signed(true, crate::num::round::INF_MAGNITUDE as nat);
    order::lemma_signum(price);
    lemma_present(highs);
    lemma_present(lows);
    lemma_greatest(bottom, present(highs), price);
    lemma_least(Num::infinity(), present(lows), price);
    assert(super::feature::highs(prior) == present(highs));
    assert(super::feature::lows(prior) == present(lows));
    let above = forall|i: int|
        index - 60 <= i < index && (#[trigger] buckets[i]).high_price is Some
            ==> buckets[i].high_price->0.is_nan() || buckets[i].high_price->0.lt(price);
    let below = forall|i: int|
        index - 60 <= i < index && (#[trigger] buckets[i]).low_price is Some
            ==> buckets[i].low_price->0.is_nan() || price.lt(buckets[i].low_price->0);
    let all_high = forall|j: int|
        0 <= j < present(highs).len() ==> (#[trigger] present(highs)[j]).is_nan()
            || present(highs)[j].lt(price);
    let all_low = forall|j: int|
        0 <= j < present(lows).len() ==> (#[trigger] present(lows)[j]).is_nan() || price.lt(
            present(lows)[j],
        );
    if above {
        assert forall|j: int| 0 <= j < present(highs).len() implies (
        #[trigger] present(highs)[j]).is_nan() || present(highs)[j].lt(price) by {
            let k = choose|k: int| 0 <= k < highs.len() && highs[k] == Some(present(highs)[j]);
            assert(buckets[index - 60 + k].high_price == Some(present(highs)[j]));
        }
    }
    if all_high {
        assert forall|i: int|
            index - 60 <= i < index && (#[trigger] buckets[i]).high_price is Some implies
            buckets[i].high_price->0.is_nan() || buckets[i].high_price->0.lt(price) by {
            let k = i - (index - 60);
            assert(highs[k] == buckets[i].high_price);
            let j = choose|j: int|
                0 <= j < present(highs).len() && present(highs)[j] == highs[k]->0;
            assert(present(highs)[j].is_nan() || present(highs)[j].lt(price));
        }
    }
    if below {
        assert forall|j: int| 0 <= j < present(lows).len() implies (
        #[trigger] present(lows)[j]).is_nan() || price.lt(present(lows)[j]) by {
            let k = choose|k: int| 0 <= k < lows.len() && lows[k] == Some(present(lows)[j]);
            assert(buckets[index - 60 + k].low_price == Some(present(lows)[j]));
        }
    }
    if all_low {
        assert forall|i: int|
            index - 60 <= i < index && (#[trigger] buckets[i]).low_price is Some implies
            buckets[i].low_price->0.is_nan() || price.lt(buckets[i].low_price->0) by {
            let k = i - (index - 60);
            assert(lows[k] == buckets[i].low_price);
            let j = choose|j: int| 0 <= j < present(lows).len() && present(lows)[j] == lows[k]->0;
            assert(present(lows)[j].is_nan() || price.lt(present(lows)[j]));
        }
    }
    assert(above <==> all_high);
    assert(below <==> all_low);
}

/// How one quantity outweighs another, between minus one and one: towards the greater, and nothing
/// where there is nothing.
pub proof fn lemma_balance_leans(left: Num, right: Num)
    requires
        Num::zero().le(left),
        Num::zero().le(right),
        left.is_finite(),
        right.is_finite(),
        left.plus(right).is_finite(),
    ensures
        ({
            let b = imbalance(left, right);
            &&& Num::one().negated().le(b) && b.le(Num::one())
            &&& right.lt(left) ==> Num::zero().le(b)
            &&& left.lt(right) ==> b.le(Num::zero())
            &&& Num::zero().lt(b) ==> right.lt(left)
            &&& b.lt(Num::zero()) ==> left.lt(right)
            &&& !Num::zero().lt(left.plus(right)) ==> b == Num::zero()
        }),
{
    let sum = left.plus(right);
    order::lemma_signum(Num::one());
    if Num::zero().lt(sum) {
        let gap = left.minus(right);
        order::lemma_zero_over(sum);
        if right.le(left) {
            laws::lemma_minus_order(right, left);
            order::lemma_over_monotone(Num::zero(), gap, sum);
        }
        if left.le(right) {
            laws::lemma_minus_order(left, right);
            order::lemma_over_monotone(gap, Num::zero(), sum);
        }
        laws::lemma_within(gap.over(sum), Num::one().negated(), Num::one());
    }
}

/// What a state of the market says of the flows of trades: those of fifteen seconds, one minute and
/// five minutes lean to the side that traded more in so many windows.
pub proof fn lemma_flows_lean(buckets: Seq<Bucket>, index: int, logs: LogReturns)
    ensures
        ({
            let f = feature_of(buckets, index, logs);
            let last_3 = buckets.subrange(index - 2, index + 1);
            let last_12 = buckets.subrange(index - 11, index + 1);
            let last_60 = buckets.subrange(index - 59, index + 1);
            &&& leans(f.flow_15s, spec_total(bought(last_3)), spec_total(sold(last_3)))
            &&& leans(f.flow_60s, spec_total(bought(last_12)), spec_total(sold(last_12)))
            &&& leans(f.flow_300s, spec_total(bought(last_60)), spec_total(sold(last_60)))
            &&& buckets[index].bid_qty is Some && buckets[index].ask_qty is Some ==> leans(
                f.book_imbalance,
                buckets[index].bid_qty->0,
                buckets[index].ask_qty->0,
            )
            &&& f.turn == spec_log_at(logs.over_1@, index)
            &&& f.ret_15s == spec_log_at(logs.over_3@, index)
            &&& f.ret_60s == spec_log_at(logs.over_12@, index)
            &&& f.ret_300s == spec_log_at(logs.over_60@, index)
        }),
{
    assert forall|l: Num, r: Num| #[trigger] leans(imbalance(l, r), l, r) by {
        if Num::zero().le(l) && Num::zero().le(r) && l.is_finite() && r.is_finite() && l.plus(
            r,
        ).is_finite() {
            lemma_balance_leans(l, r);
        }
    }
}

/// Whether a balance leans to the greater of two quantities, where these can be weighed.
pub open spec fn leans(balance: Num, left: Num, right: Num) -> bool {
    Num::zero().le(left) && Num::zero().le(right) && left.is_finite() && right.is_finite()
        && left.plus(right).is_finite() ==> {
        &&& Num::one().negated().le(balance) && balance.le(Num::one())
        &&& Num::zero().lt(balance) ==> right.lt(left)
        &&& balance.lt(Num::zero()) ==> left.lt(right)
        &&& right.lt(left) ==> Num::zero().le(balance)
        &&& left.lt(right) ==> balance.le(Num::zero())
        &&& !Num::zero().lt(left.plus(right)) ==> balance == Num::zero()
    }
}

/// A return counts for as much as it is in units of volatility, up to one, and towards its own side.
proof fn lemma_momentum(ret: Num, volatility: Num, steps: i64, tenths: i64)
    requires
        ret.is_finite(),
        volatility.is_finite(),
        0 < steps < 1000,
        10 <= tenths < 1000,
    ensures
        ({
            let m = momentum(ret, volatility, steps, tenths);
            &&& m.is_finite()
            &&& Num::zero().le(ret) ==> Num::zero().le(m)
            &&& ret.le(Num::zero()) ==> m.le(Num::zero())
            &&& Num::one().negated().le(m) && m.le(Num::one())
        }),
{
    let tiny = Num::ratio(1, 1_000_000);
    order::lemma_ratio_order(1, 1_000_000, 1, 1_000_000);
    order::lemma_ratio_order(tenths, 10, tenths, 10);
    order::lemma_signum(Num::one());
    let sigma = volatility.times(Num::from_int(steps).root()).larger(tiny);
    assert(tiny.le(sigma));
    let unit = Num::ratio(tenths, 10).times(sigma);
    order::lemma_ratio_above_one(tenths, 10);
    order::lemma_times_commutes(Num::ratio(tenths, 10), sigma);
    order::lemma_times_keeps_side(sigma, Num::ratio(tenths, 10));
    order::lemma_over_keeps_side(ret, unit);
    laws::lemma_within(ret.over(unit), Num::one().negated(), Num::one());
}

/// The ten things that the score of a state of the market is made of, each with its weight. Flows
/// of trades count for more while trading is lively.
pub open spec fn score_parts(f: Feature) -> Seq<Num> {
    let two = Num::from_int(2);
    let lively = Num::ratio(75, 100).plus(
        Num::ratio(125, 1000).times(f.volume_ratio.smaller(two)),
    ).plus(Num::ratio(125, 1000).times(f.trade_intensity_ratio.smaller(two))).within(
        Num::ratio(75, 100),
        Num::ratio(125, 100),
    );
    seq![
        Num::ratio(17, 100).times(f.flow_15s).times(lively),
        Num::ratio(15, 100).times(f.flow_60s).times(lively),
        Num::ratio(8, 100).times(f.flow_300s),
        Num::ratio(15, 100).times(f.book_imbalance),
        Num::ratio(8, 100).times(f.book_imbalance_60s),
        Num::ratio(14, 100).times(momentum(f.ret_60s, f.volatility_60s, 12, 25)),
        Num::ratio(8, 100).times(momentum(f.ret_15s, f.volatility_60s, 3, 22)),
        Num::ratio(8, 100).times(momentum(f.ret_300s, f.volatility_300s, 60, 28)),
        Num::ratio(4, 100).times(momentum(f.acceleration, f.volatility_60s, 3, 15)),
        Num::ratio(3, 100).times(f.range_position).times(f.trend_efficiency),
    ]
}

/// Whether all that a state of the market is measured by are numbers.
pub open spec fn is_measured(f: Feature) -> bool {
    &&& f.ret_15s.is_finite() && f.ret_60s.is_finite() && f.ret_300s.is_finite()
    &&& f.acceleration.is_finite()
    &&& f.flow_15s.is_finite() && f.flow_60s.is_finite() && f.flow_300s.is_finite()
    &&& f.book_imbalance.is_finite() && f.book_imbalance_60s.is_finite()
    &&& f.volatility_60s.is_finite() && f.volatility_300s.is_finite()
    &&& f.volume_ratio.is_finite() && Num::zero().le(f.volume_ratio)
    &&& f.trade_intensity_ratio.is_finite() && Num::zero().le(f.trade_intensity_ratio)
    &&& f.range_position.is_finite()
    &&& f.trend_efficiency.is_positive() || f.trend_efficiency == Num::zero()
}

/// The score of a state of the market leans where everything leans: where trades, book and returns
/// all point up it is not below zero, and at least each of its parts, or one; where all point down
/// it is not above zero, and at most each of its parts, or minus one. It never leaves these bounds.
pub proof fn lemma_score_leans(f: Feature)
    requires
        is_measured(f),
    ensures
        ({
            let s = score_of(f);
            let zero = Num::zero();
            let up = zero.le(f.flow_15s) && zero.le(f.flow_60s) && zero.le(f.flow_300s) && zero.le(
                f.book_imbalance,
            ) && zero.le(f.book_imbalance_60s) && zero.le(f.ret_60s) && zero.le(f.ret_15s)
                && zero.le(f.ret_300s) && zero.le(f.acceleration) && zero.le(f.range_position);
            let down = f.flow_15s.le(zero) && f.flow_60s.le(zero) && f.flow_300s.le(zero)
                && f.book_imbalance.le(zero) && f.book_imbalance_60s.le(zero) && f.ret_60s.le(zero)
                && f.ret_15s.le(zero) && f.ret_300s.le(zero) && f.acceleration.le(zero)
                && f.range_position.le(zero);
            &&& up ==> zero.le(s) && s.le(Num::one()) && forall|i: int|
                0 <= i < 10 ==> (#[trigger] score_parts(f)[i]).le(s) || s == Num::one()
            &&& down ==> s.le(zero) && Num::one().negated().le(s) && forall|i: int|
                0 <= i < 10 ==> s.le(#[trigger] score_parts(f)[i]) || s == Num::one().negated()
        }),
{
    let zero = Num::zero();
    let one = Num::one();
    let two = Num::from_int(2);
    let p = score_parts(f);
    order::lemma_ratio_order(75, 100, 125, 100);
    order::lemma_ratio_order(125, 100, 125, 100);
    order::lemma_ratio_order(125, 1000, 125, 1000);
    order::lemma_ratio_order(17, 100, 17, 100);
    order::lemma_ratio_order(15, 100, 15, 100);
    order::lemma_ratio_order(14, 100, 14, 100);
    order::lemma_ratio_order(8, 100, 8, 100);
    order::lemma_ratio_order(4, 100, 4, 100);
    order::lemma_ratio_order(3, 100, 3, 100);
    order::lemma_signum(one);
    laws::lemma_whole_order(1, 2);
    laws::lemma_whole_order(2, 2);
    laws::lemma_whole_one();
    // How lively trading is.
    let eighth = Num::ratio(125, 1000);
    let v = f.volume_ratio.smaller(two);
    let w = f.trade_intensity_ratio.smaller(two);
    order::lemma_times_stays(v, eighth);
    order::lemma_times_stays(w, eighth);
    let base = Num::ratio(75, 100);
    order::lemma_sum_grows(base, eighth.times(v));
    order::lemma_sum_grows(base.plus(eighth.times(v)), eighth.times(w));
    let raw = base.plus(eighth.times(v)).plus(eighth.times(w));
    let lively = raw.within(base, Num::ratio(125, 100));
    laws::lemma_within(raw, base, Num::ratio(125, 100));
    assert(lively.is_positive());
    // The parts.
    order::lemma_times_stays(f.flow_15s, Num::ratio(17, 100));
    order::lemma_times_stays(Num::ratio(17, 100).times(f.flow_15s), lively);
    order::lemma_times_stays(f.flow_60s, Num::ratio(15, 100));
    order::lemma_times_stays(Num::ratio(15, 100).times(f.flow_60s), lively);
    order::lemma_times_stays(f.flow_300s, Num::ratio(8, 100));
    order::lemma_times_stays(f.book_imbalance, Num::ratio(15, 100));
    order::lemma_times_stays(f.book_imbalance_60s, Num::ratio(8, 100));
    lemma_momentum(f.ret_60s, f.volatility_60s, 12, 25);
    lemma_momentum(f.ret_15s, f.volatility_60s, 3, 22);
    lemma_momentum(f.ret_300s, f.volatility_300s, 60, 28);
    lemma_momentum(f.acceleration, f.volatility_60s, 3, 15);
    order::lemma_times_stays(momentum(f.ret_60s, f.volatility_60s, 12, 25), Num::ratio(14, 100));
    order::lemma_times_stays(momentum(f.ret_15s, f.volatility_60s, 3, 22), Num::ratio(8, 100));
    order::lemma_times_stays(momentum(f.ret_300s, f.volatility_300s, 60, 28), Num::ratio(8, 100));
    order::lemma_times_stays(
        momentum(f.acceleration, f.volatility_60s, 3, 15),
        Num::ratio(4, 100),
    );
    order::lemma_times_stays(f.range_position, Num::ratio(3, 100));
    let last = Num::ratio(3, 100).times(f.range_position);
    if f.trend_efficiency == zero {
        order::lemma_small_times_zero(f.range_position);
    } else {
        order::lemma_times_stays(last, f.trend_efficiency);
    }
    // The sums.
    let s1 = p[0].plus(p[1]);
    let s2 = s1.plus(p[2]);
    let s3 = s2.plus(p[3]);
    let s4 = s3.plus(p[4]);
    let s5 = s4.plus(p[5]);
    let s6 = s5.plus(p[6]);
    let s7 = s6.plus(p[7]);
    let s8 = s7.plus(p[8]);
    let s9 = s8.plus(p[9]);
    assert(score_of(f) == s9.within(one.negated(), one));
    if zero.le(p[0]) && zero.le(p[1]) && zero.le(p[2]) && zero.le(p[3]) && zero.le(p[4])
        && zero.le(p[5]) && zero.le(p[6]) && zero.le(p[7]) && zero.le(p[8]) && zero.le(p[9]) {
        order::lemma_sum_grows(p[0], p[1]);
        order::lemma_sum_grows(s1, p[2]);
        order::lemma_sum_grows(s2, p[3]);
        order::lemma_sum_grows(s3, p[4]);
        order::lemma_sum_grows(s4, p[5]);
        order::lemma_sum_grows(s5, p[6]);
        order::lemma_sum_grows(s6, p[7]);
        order::lemma_sum_grows(s7, p[8]);
        order::lemma_sum_grows(s8, p[9]);
    }
    if p[0].le(zero) && p[1].le(zero) && p[2].le(zero) && p[3].le(zero) && p[4].le(zero)
        && p[5].le(zero) && p[6].le(zero) && p[7].le(zero) && p[8].le(zero) && p[9].le(zero) {
        order::lemma_sum_sinks(p[0], p[1]);
        order::lemma_sum_sinks(s1, p[2]);
        order::lemma_sum_sinks(s2, p[3]);
        order::lemma_sum_sinks(s3, p[4]);
        order::lemma_sum_sinks(s4, p[5]);
        order::lemma_sum_sinks(s5, p[6]);
        order::lemma_sum_sinks(s6, p[7]);
        order::lemma_sum_sinks(s7, p[8]);
        order::lemma_sum_sinks(s8, p[9]);
    }
}

/// Every list of logarithms serves the span of time that it is over: returns of 15 seconds, one
/// minute and five minutes are changes over three, twelve and sixty windows of five seconds, the
/// turn is the last change, and what came after an analog of a horizon is the change over that
/// horizon.
pub proof fn lemma_returns_span_their_time(
    buckets: Seq<Bucket>,
    index: int,
    logs: LogReturns,
    h: int,
    log: spec_fn(Num) -> Num,
)
    requires
        tells_changes(logs.over_1@, buckets, 1, log),
        tells_changes(logs.over_3@, buckets, 3, log),
        tells_changes(logs.over_12@, buckets, 12, log),
        tells_changes(logs.over_60@, buckets, 60, log),
        tells_changes(logs.over_180@, buckets, 180, log),
        tells_changes(logs.over_720@, buckets, 720, log),
        0 <= h < 4,
    ensures
        tells_changes(horizon_logs(logs, h), buckets, HORIZONS@[h] as int / 5, log),
        index < buckets.len() && has_feature(buckets, index) ==> {
            let f = feature_of(buckets, index, logs);
            let now = buckets[index].price->0;
            &&& f.ret_15s == log(now.over(buckets[index - 3].price->0))
            &&& f.ret_60s == log(now.over(buckets[index - 12].price->0))
            &&& f.ret_300s == log(now.over(buckets[index - 60].price->0))
            &&& f.turn == log(now.over(buckets[index - 1].price->0))
            &&& f.acceleration == f.ret_15s.minus(f.ret_60s.over(Num::from_int(4)))
        },
{
    assert(HORIZONS@[0] == 60 && HORIZONS@[1] == 300 && HORIZONS@[2] == 900 && HORIZONS@[3]
        == 3600);
    if index < buckets.len() && has_feature(buckets, index) {
        assert(buckets[index].price is Some);
        assert(buckets[index - 1].price is Some);
        assert(buckets[index - 3].price is Some);
        assert(buckets[index - 12].price is Some);
        assert(buckets[index - 60].price is Some);
        let now = buckets[index].price->0;
        assert(logs.over_1@[index] == log(now.over(buckets[index - 1].price->0)));
        assert(logs.over_3@[index] == log(now.over(buckets[index - 3].price->0)));
        assert(logs.over_12@[index] == log(now.over(buckets[index - 12].price->0)));
        assert(logs.over_60@[index] == log(now.over(buckets[index - 60].price->0)));
    }
}

} // verus!
