//! Five-second windows of trades and quotes.

use crate::model::{is_moment, MarketPoint, PointView};
use crate::num::Num;
use crate::text;
use vstd::prelude::*;

verus! {

/// What happened in a window: the last quote, the extremes of the quotes, and the trades.
#[derive(Debug, Clone, Copy, PartialEq, Eq, Structural)]
pub struct Bucket {
    pub ts: i64,
    pub price: Option<Num>,
    pub high_price: Option<Num>,
    pub low_price: Option<Num>,
    pub buy_qty: Num,
    pub sell_qty: Num,
    pub trade_count: u64,
    pub bid_price: Option<Num>,
    pub bid_qty: Option<Num>,
    pub ask_price: Option<Num>,
    pub ask_qty: Option<Num>,
    pub quote_ts: Option<i64>,
    pub bid_high: Option<Num>,
    pub bid_low: Option<Num>,
    pub ask_high: Option<Num>,
    pub ask_low: Option<Num>,
}

/// The start of the window of a time; of a time before the epoch, the end that is nearer to it.
pub open spec fn spec_window(ts: i64) -> i64 {
    if ts >= 0 {
        (ts as int / 5000 * 5000) as i64
    } else {
        (-((-ts) / 5000 * 5000)) as i64
    }
}

/// The start of the window of a time; of a time before the epoch, the end that is nearer to it.
#[verifier::when_used_as_spec(spec_window)]
pub fn window(ts: i64) -> (r: i64)
    requires
        is_moment(ts),
    ensures
        r == spec_window(ts),
        -0x2000_0000_0000_0000 <= r <= 0x2000_0000_0000_0000,
        r as int % 5000 == 0,
{
    if ts >= 0 {
        let n = ts as u64 / 5000;
        (n * 5000) as i64
    } else {
        let n = (-ts) as u64 / 5000;
        assert((-(n * 5000)) % 5000 == 0) by {
            vstd::arithmetic::div_mod::lemma_mod_multiples_basic(-(n as int), 5000);
        }
        -((n * 5000) as i64)
    }
}

impl Bucket {
    /// A window in which nothing happened.
    pub open spec fn spec_empty(ts: i64) -> Bucket {
        Bucket {
            ts,
            price: None,
            high_price: None,
            low_price: None,
            buy_qty: Num::zero(),
            sell_qty: Num::zero(),
            trade_count: 0,
            bid_price: None,
            bid_qty: None,
            ask_price: None,
            ask_qty: None,
            quote_ts: None,
            bid_high: None,
            bid_low: None,
            ask_high: None,
            ask_low: None,
        }
    }

    /// A window in which nothing happened.
    #[verifier::when_used_as_spec(spec_empty)]
    pub fn empty(ts: i64) -> (r: Bucket)
        ensures
            r == Bucket::spec_empty(ts),
    {
        Bucket {
            ts,
            price: None,
            high_price: None,
            low_price: None,
            buy_qty: Num::zero(),
            sell_qty: Num::zero(),
            trade_count: 0,
            bid_price: None,
            bid_qty: None,
            ask_price: None,
            ask_qty: None,
            quote_ts: None,
            bid_high: None,
            bid_low: None,
            ask_high: None,
            ask_low: None,
        }
    }
}

/// The greater of a number and one that may be there.
pub open spec fn raised(old: Option<Num>, new: Num) -> Option<Num> {
    match old {
        Some(x) => Some(x.larger(new)),
        None => Some(new.larger(new)),
    }
}

/// The smaller of a number and one that may be there.
pub open spec fn sunk(old: Option<Num>, new: Num) -> Option<Num> {
    match old {
        Some(x) => Some(x.smaller(new)),
        None => Some(new.smaller(new)),
    }
}

/// Whether a point is a trade.
pub open spec fn is_trade(p: PointView) -> bool {
    p.kind == "trade"@ || p.kind == "public_trade"@
}

/// Whether a point is a complete quote: positive prices and sizes, not crossed.
pub open spec fn is_quote(p: PointView) -> bool {
    &&& p.kind == "book_ticker"@
    &&& p.bid_price is Some && p.bid_price->0.is_positive()
    &&& p.ask_price is Some && p.ask_price->0.is_positive()
    &&& p.bid_qty is Some && p.bid_qty->0.is_positive()
    &&& p.ask_qty is Some && p.ask_qty->0.is_positive()
    &&& p.bid_price->0.le(p.ask_price->0)
}

/// The middle of a bid and an ask.
pub open spec fn mid_of(bid: Num, ask: Num) -> Num {
    bid.plus(ask).over(Num::from_int(2))
}

/// A window with one more point.
pub open spec fn added(b: Bucket, p: PointView) -> Bucket {
    if is_trade(p) {
        if p.qty is Some && p.qty->0.is_positive() {
            Bucket {
                buy_qty: if p.side == Some("BUY"@) {
                    b.buy_qty.plus(p.qty->0)
                } else {
                    b.buy_qty
                },
                sell_qty: if p.side == Some("SELL"@) {
                    b.sell_qty.plus(p.qty->0)
                } else {
                    b.sell_qty
                },
                trade_count: (b.trade_count + 1) as u64,
                ..b
            }
        } else {
            b
        }
    } else if is_quote(p) {
        let bid = p.bid_price->0;
        let ask = p.ask_price->0;
        let mid = mid_of(bid, ask);
        Bucket {
            price: Some(mid),
            high_price: raised(b.high_price, mid),
            low_price: sunk(b.low_price, mid),
            bid_high: raised(b.bid_high, bid),
            bid_low: sunk(b.bid_low, bid),
            ask_high: raised(b.ask_high, ask),
            ask_low: sunk(b.ask_low, ask),
            bid_price: Some(bid),
            ask_price: Some(ask),
            bid_qty: p.bid_qty,
            ask_qty: p.ask_qty,
            quote_ts: Some(p.ts),
            ..b
        }
    } else {
        b
    }
}

/// The window that starts at `ts`, from its own points in order.
pub open spec fn own_window(points: Seq<PointView>, ts: int) -> Bucket
    decreases points.len(),
{
    if points.len() == 0 {
        Bucket::empty(ts as i64)
    } else {
        let b = own_window(points.drop_last(), ts);
        if window(points.last().ts) == ts {
            added(b, points.last())
        } else {
            b
        }
    }
}

/// Whether the last quote of a window may stand for the next window, which starts at `ts`.
pub open spec fn carries(prev: Bucket, ts: int, max_gap_ms: i64) -> bool {
    prev.quote_ts is Some && ts + 4999 - prev.quote_ts->0 <= max_gap_ms
}

/// A window without quote that takes the last quote of the window before.
pub open spec fn carried(b: Bucket, prev: Bucket) -> Bucket {
    Bucket {
        price: prev.price,
        bid_price: prev.bid_price,
        ask_price: prev.ask_price,
        bid_qty: prev.bid_qty,
        ask_qty: prev.ask_qty,
        quote_ts: prev.quote_ts,
        high_price: prev.price,
        low_price: prev.price,
        bid_high: prev.bid_price,
        bid_low: prev.bid_price,
        ask_high: prev.ask_price,
        ask_low: prev.ask_price,
        ..b
    }
}

/// Window number `i` from `first` on: its own points, and the quote before it where it has none
/// and that quote is recent enough.
pub open spec fn full_window(
    points: Seq<PointView>,
    first: int,
    i: nat,
    max_gap_ms: i64,
) -> Bucket
    decreases i,
{
    let ts = first + 5000 * i;
    let b = own_window(points, ts);
    if b.price is None && i > 0 {
        let prev = full_window(points, first, (i - 1) as nat, max_gap_ms);
        if carries(prev, ts, max_gap_ms) {
            carried(b, prev)
        } else {
            b
        }
    } else {
        b
    }
}

/// The earliest window of points.
pub open spec fn first_window(points: Seq<PointView>) -> int
    recommends
        points.len() > 0,
    decreases points.len(),
{
    let w = window(points.last().ts) as int;
    if points.len() <= 1 {
        w
    } else {
        let rest = first_window(points.drop_last());
        if w < rest {
            w
        } else {
            rest
        }
    }
}

/// The latest window of points.
pub open spec fn last_window(points: Seq<PointView>) -> int
    recommends
        points.len() > 0,
    decreases points.len(),
{
    let w = window(points.last().ts) as int;
    if points.len() <= 1 {
        w
    } else {
        let rest = last_window(points.drop_last());
        if w > rest {
            w
        } else {
            rest
        }
    }
}

/// The windows of points, from the earliest to the latest without a break.
pub open spec fn windows(points: Seq<PointView>, max_gap_ms: i64) -> Seq<Bucket> {
    if points.len() == 0 {
        Seq::empty()
    } else {
        let first = first_window(points);
        Seq::new(
            ((last_window(points) - first) / 5000 + 1) as nat,
            |i: int| full_window(points, first, i as nat, max_gap_ms),
        )
    }
}

/// The views of points.
pub open spec fn point_views(points: Seq<MarketPoint>) -> Seq<PointView> {
    Seq::new(points.len(), |i: int| points[i]@)
}

/// Adds a point to its window.
fn put(b: Bucket, point: &MarketPoint) -> (r: Bucket)
    requires
        b.trade_count < u64::MAX,
    ensures
        r == added(b, point@),
{
    let mut b = b;
    if text::same(point.kind.as_str(), "trade") || text::same(
        point.kind.as_str(),
        "public_trade",
    ) {
        if let Some(qty) = point.qty {
            if qty.is_positive() {
                if let Some(side) = &point.side {
                    proof {
                        reveal_strlit("BUY");
                        reveal_strlit("SELL");
                        assert("BUY"@.len() != "SELL"@.len());
                    }
                    if text::same(side.as_str(), "BUY") {
                        b.buy_qty = b.buy_qty.plus(qty);
                    } else if text::same(side.as_str(), "SELL") {
                        b.sell_qty = b.sell_qty.plus(qty);
                    }
                }
                b.trade_count = b.trade_count + 1;
            }
        }
    } else if text::same(point.kind.as_str(), "book_ticker") {
        if let (Some(bid), Some(ask), Some(bq), Some(aq)) = (
            point.bid_price,
            point.ask_price,
            point.bid_qty,
            point.ask_qty,
        ) {
            if bid.is_positive() && ask.is_positive() && bq.is_positive() && aq.is_positive()
                && bid.le(ask) {
                let mid = bid.plus(ask).over(Num::from_int(2));
                b.price = Some(mid);
                b.high_price = Some(b.high_price.unwrap_or(mid).larger(mid));
                b.low_price = Some(b.low_price.unwrap_or(mid).smaller(mid));
                b.bid_high = Some(b.bid_high.unwrap_or(bid).larger(bid));
                b.bid_low = Some(b.bid_low.unwrap_or(bid).smaller(bid));
                b.ask_high = Some(b.ask_high.unwrap_or(ask).larger(ask));
                b.ask_low = Some(b.ask_low.unwrap_or(ask).smaller(ask));
                b.bid_price = Some(bid);
                b.ask_price = Some(ask);
                b.bid_qty = Some(bq);
                b.ask_qty = Some(aq);
                b.quote_ts = Some(point.ts);
            }
        }
    }
    b
}

/// The earliest and latest windows are those of points, and enclose the windows of all points.
proof fn lemma_window_bounds(points: Seq<PointView>)
    requires
        points.len() > 0,
    ensures
        first_window(points) <= last_window(points),
        forall|i: int|
            0 <= i < points.len() ==> first_window(points) <= window((#[trigger] points[i]).ts)
                <= last_window(points),
    decreases points.len(),
{
    if points.len() > 1 {
        let rest = points.drop_last();
        lemma_window_bounds(rest);
        assert forall|i: int| 0 <= i < points.len() implies first_window(points) <= window(
            (#[trigger] points[i]).ts,
        ) <= last_window(points) by {
            if i < rest.len() {
                assert(rest[i] == points[i]);
            }
        }
    }
}

/// A window counts no more trades than there are points, keeps its start, and its quote is one of
/// the points.
proof fn lemma_own_window(points: Seq<PointView>, ts: int)
    requires
        points.len() <= u64::MAX,
        forall|i: int| 0 <= i < points.len() ==> is_moment((#[trigger] points[i]).ts),
    ensures
        own_window(points, ts).trade_count <= points.len(),
        own_window(points, ts).ts == ts as i64,
        own_window(points, ts).quote_ts is Some ==> is_moment(
            own_window(points, ts).quote_ts->0,
        ),
    decreases points.len(),
{
    if points.len() > 0 {
        let rest = points.drop_last();
        assert forall|i: int| 0 <= i < rest.len() implies is_moment((#[trigger] rest[i]).ts) by {
            assert(rest[i] == points[i]);
        }
        lemma_own_window(rest, ts);
        assert(is_moment(points[points.len() - 1].ts));
    }
}

proof fn lemma_full_window(points: Seq<PointView>, first: int, i: nat, max_gap_ms: i64)
    requires
        points.len() <= u64::MAX,
        forall|k: int| 0 <= k < points.len() ==> is_moment((#[trigger] points[k]).ts),
    ensures
        full_window(points, first, i, max_gap_ms).quote_ts is Some ==> is_moment(
            full_window(points, first, i, max_gap_ms).quote_ts->0,
        ),
        full_window(points, first, i, max_gap_ms).trade_count <= points.len(),
        full_window(points, first, i, max_gap_ms).ts == (first + 5000 * i) as i64,
    decreases i,
{
    lemma_own_window(points, first + 5000 * i);
    if i > 0 {
        lemma_full_window(points, first, (i - 1) as nat, max_gap_ms);
    }
}

/// The windows of points, from the earliest to the latest without a break. A window without quote
/// takes the one before it only where that is recent enough: an outage stays missing.
pub fn build_buckets(points: &[MarketPoint], max_gap_ms: i64) -> (r: Vec<Bucket>)
    requires
        forall|i: int| 0 <= i < points@.len() ==> is_moment((#[trigger] points@[i]).ts),
    ensures
        r@ == windows(point_views(points@), max_gap_ms),
{
    let ghost all = point_views(points@);
    let count = points.len();
    let mut buckets: Vec<Bucket> = Vec::new();
    if count == 0 {
        return buckets;
    }
    assert forall|i: int| 0 <= i < all.len() implies is_moment((#[trigger] all[i]).ts) by {
        assert(all[i] == points@[i]@);
    }
    let mut first: i64 = window(points[0].ts);
    let mut last: i64 = first;
    proof {
        assert(all.take(1).last() == points@[0]@);
    }
    for n in 1..count
        invariant
            count == points@.len(),
            all == point_views(points@),
            forall|i: int| 0 <= i < all.len() ==> is_moment((#[trigger] all[i]).ts),
            first == first_window(all.take(n as int)),
            last == last_window(all.take(n as int)),
            first as int % 5000 == 0,
            last as int % 5000 == 0,
            -0x2000_0000_0000_0000 <= first <= 0x2000_0000_0000_0000,
            -0x2000_0000_0000_0000 <= last <= 0x2000_0000_0000_0000,
    {
        proof {
            assert(all.take(n + 1).drop_last() =~= all.take(n as int));
            assert(all.take(n + 1).last() == points@[n as int]@);
            assert(is_moment(all[n as int].ts));
        }
        let w = window(points[n].ts);
        if w < first {
            first = w;
        }
        if w > last {
            last = w;
        }
    }
    assert(all.take(count as int) =~= all);
    proof {
        lemma_window_bounds(all);
    }
    let mut ts: i64 = first;
    while ts <= last
        invariant
            first <= ts <= last + 5000,
            first as int % 5000 == 0,
            last as int % 5000 == 0,
            ts as int % 5000 == 0,
            -0x2000_0000_0000_0000 <= first <= last <= 0x2000_0000_0000_0000,
            buckets@.len() == (ts - first) / 5000,
            forall|k: int|
                0 <= k < buckets@.len() ==> #[trigger] buckets@[k] == Bucket::empty(
                    (first + 5000 * k) as i64,
                ),
        decreases last + 5000 - ts,
    {
        buckets.push(Bucket::empty(ts));
        assert((ts + 5000 - first) / 5000 == (ts - first) / 5000 + 1);
        ts = ts + 5000;
    }
    let size = buckets.len();
    assert(size == (last - first) / 5000 + 1);
    assert(all.take(0) =~= Seq::<PointView>::empty());
    for n in 0..count
        invariant
            count == points@.len(),
            all == point_views(points@),
            forall|i: int| 0 <= i < all.len() ==> is_moment((#[trigger] all[i]).ts),
            forall|i: int|
                0 <= i < all.len() ==> first <= window((#[trigger] all[i]).ts) <= last,
            -0x2000_0000_0000_0000 <= first <= last <= 0x2000_0000_0000_0000,
            first as int % 5000 == 0,
            size == (last - first) / 5000 + 1,
            buckets@.len() == size,
            forall|k: int|
                0 <= k < size ==> #[trigger] buckets@[k] == own_window(
                    all.take(n as int),
                    first + 5000 * k,
                ),
    {
        proof {
            assert(all[n as int] == points@[n as int]@);
            assert(first <= window(all[n as int].ts) <= last);
            assert(all.take(n + 1).drop_last() =~= all.take(n as int));
            assert(all.take(n + 1).last() == points@[n as int]@);
        }
        let w = window(points[n].ts);
        let at = ((w - first) as u64 / 5000) as usize;
        assert(w == first + 5000 * at);
        proof {
            let before = all.take(n as int);
            assert forall|i: int| 0 <= i < before.len() implies is_moment(
                (#[trigger] before[i]).ts,
            ) by {
                assert(before[i] == all[i]);
            }
            lemma_own_window(before, first + 5000 * at);
        }
        let ghost old_buckets = buckets@;
        let b = put(buckets[at], &points[n]);
        buckets.set(at, b);
        assert forall|k: int| 0 <= k < size implies #[trigger] buckets@[k] == own_window(
            all.take(n + 1),
            first + 5000 * k,
        ) by {
            assert(old_buckets[k] == own_window(all.take(n as int), first + 5000 * k));
        }
    }
    assert(all.take(count as int) =~= all);
    for k in 0..size
        invariant
            all == point_views(points@),
            all.len() == count,
            forall|i: int| 0 <= i < all.len() ==> is_moment((#[trigger] all[i]).ts),
            -0x2000_0000_0000_0000 <= first <= last <= 0x2000_0000_0000_0000,
            size == (last - first) / 5000 + 1,
            buckets@.len() == size,
            forall|j: int|
                0 <= j < k ==> #[trigger] buckets@[j] == full_window(
                    all,
                    first as int,
                    j as nat,
                    max_gap_ms,
                ),
            forall|j: int|
                k <= j < size ==> #[trigger] buckets@[j] == own_window(all, first + 5000 * j),
    {
        let mut b = buckets[k];
        let ghost own = b;
        proof {
            assert(own == own_window(all, first + 5000 * k));
        }
        if b.price.is_none() && k > 0 {
            let prev = buckets[k - 1];
            proof {
                assert(buckets@[k - 1] == full_window(
                    all,
                    first as int,
                    (k - 1) as nat,
                    max_gap_ms,
                ));
                lemma_full_window(all, first as int, (k - 1) as nat, max_gap_ms);
            }
            let start: i64 = first + (k as i64) * 5000;
            if let Some(q) = prev.quote_ts {
                if start + 4999 - q <= max_gap_ms {
                    b.price = prev.price;
                    b.bid_price = prev.bid_price;
                    b.ask_price = prev.ask_price;
                    b.bid_qty = prev.bid_qty;
                    b.ask_qty = prev.ask_qty;
                    b.quote_ts = prev.quote_ts;
                    b.high_price = b.price;
                    b.low_price = b.price;
                    b.bid_high = b.bid_price;
                    b.bid_low = b.bid_price;
                    b.ask_high = b.ask_price;
                    b.ask_low = b.ask_price;
                }
            }
        }
        assert(b == full_window(all, first as int, k as nat, max_gap_ms));
        let ghost old_buckets = buckets@;
        buckets.set(k, b);
        assert forall|j: int| 0 <= j < k + 1 implies #[trigger] buckets@[j] == full_window(
            all,
            first as int,
            j as nat,
            max_gap_ms,
        ) by {
            if j < k {
                assert(old_buckets[j] == full_window(all, first as int, j as nat, max_gap_ms));
            }
        }
        assert forall|j: int| k + 1 <= j < size implies #[trigger] buckets@[j] == own_window(
            all,
            first + 5000 * j,
        ) by {
            assert(old_buckets[j] == own_window(all, first + 5000 * j));
        }
    }
    assert(buckets@ =~= windows(all, max_gap_ms));
    buckets
}

/// The times of windows can be computed with, and a window counts no more trades than there are
/// points.
pub proof fn lemma_windows_bounded(points: Seq<PointView>, max_gap_ms: i64)
    requires
        points.len() <= 0x3FF_FFFF_FFFF_FFFF,
        forall|k: int| 0 <= k < points.len() ==> is_moment((#[trigger] points[k]).ts),
    ensures
        forall|i: int|
            0 <= i < windows(points, max_gap_ms).len() ==> {
                let b = #[trigger] windows(points, max_gap_ms)[i];
                &&& b.trade_count <= 0x3FF_FFFF_FFFF_FFFF
                &&& is_moment(b.ts)
                &&& b.quote_ts is Some ==> is_moment(b.quote_ts->0)
            },
{
    let s = windows(points, max_gap_ms);
    if points.len() > 0 {
        lemma_window_bounds(points);
        lemma_window_moments(points);
        let first = first_window(points);
        let last = last_window(points);
        assert forall|i: int| 0 <= i < s.len() implies {
            let b = #[trigger] s[i];
            &&& b.trade_count <= 0x3FF_FFFF_FFFF_FFFF
            &&& is_moment(b.ts)
            &&& b.quote_ts is Some ==> is_moment(b.quote_ts->0)
        } by {
            lemma_full_window(points, first, i as nat, max_gap_ms);
            assert(first + 5000 * i <= last);
        }
    }
}

proof fn lemma_window_moments(points: Seq<PointView>)
    requires
        points.len() > 0,
        forall|k: int| 0 <= k < points.len() ==> is_moment((#[trigger] points[k]).ts),
    ensures
        -0x2000_0000_0000_0000 <= first_window(points) <= 0x2000_0000_0000_0000,
        -0x2000_0000_0000_0000 <= last_window(points) <= 0x2000_0000_0000_0000,
    decreases points.len(),
{
    assert(is_moment(points[points.len() - 1].ts));
    if points.len() > 1 {
        let rest = points.drop_last();
        assert forall|k: int| 0 <= k < rest.len() implies is_moment((#[trigger] rest[k]).ts) by {
            assert(rest[k] == points[k]);
        }
        lemma_window_moments(rest);
    }
}

/// No outage is filled for long: where a window has a price, some quote was received less than
/// the greatest gap before the end of the window, or within it.
pub proof fn lemma_outages_stay_missing(
    points: Seq<PointView>,
    first: int,
    i: nat,
    max_gap_ms: i64,
)
    ensures
        ({
            let b = full_window(points, first, i, max_gap_ms);
            b.price is Some ==> {
                ||| own_window(points, first + 5000 * i).price is Some
                ||| b.quote_ts is Some && first + 5000 * i + 4999 - b.quote_ts->0 <= max_gap_ms
            }
        }),
    decreases i,
{
}

proof fn lemma_inserted_own(points: Seq<PointView>, k: int, e: PointView, ts: int)
    requires
        0 <= k <= points.len(),
        !is_trade(e),
        !is_quote(e),
    ensures
        own_window(points.insert(k, e), ts) == own_window(points, ts),
    decreases points.len(),
{
    let more = points.insert(k, e);
    if k == points.len() {
        assert(more.drop_last() =~= points);
    } else {
        assert(more.drop_last() =~= points.drop_last().insert(k, e));
        assert(more.last() == points.last());
        lemma_inserted_own(points.drop_last(), k, e, ts);
    }
}

proof fn lemma_inserted_full(
    points: Seq<PointView>,
    k: int,
    e: PointView,
    first: int,
    i: nat,
    max_gap_ms: i64,
)
    requires
        0 <= k <= points.len(),
        !is_trade(e),
        !is_quote(e),
    ensures
        full_window(points.insert(k, e), first, i, max_gap_ms) == full_window(
            points,
            first,
            i,
            max_gap_ms,
        ),
    decreases i,
{
    lemma_inserted_own(points, k, e, first + 5000 * i);
    if i > 0 {
        lemma_inserted_full(points, k, e, first, (i - 1) as nat, max_gap_ms);
    }
}

proof fn lemma_inserted_bounds(points: Seq<PointView>, k: int, e: PointView)
    requires
        0 <= k <= points.len(),
        points.len() > 0,
    ensures
        ({
            let w = window(e.ts) as int;
            let first = first_window(points);
            let last = last_window(points);
            &&& first_window(points.insert(k, e)) == if w < first {
                w
            } else {
                first
            }
            &&& last_window(points.insert(k, e)) == if w > last {
                w
            } else {
                last
            }
        }),
    decreases points.len(),
{
    let more = points.insert(k, e);
    if k == points.len() {
        assert(more.drop_last() =~= points);
    } else {
        let rest = points.drop_last();
        assert(more.drop_last() =~= rest.insert(k, e));
        assert(more.last() == points.last());
        if rest.len() > 0 {
            lemma_inserted_bounds(rest, k, e);
        } else {
            let both = rest.insert(k, e);
            assert(both.len() == 1 && both.last() == e);
            assert(first_window(both) == window(e.ts) && last_window(both) == window(e.ts));
        }
    }
}

/// What is neither a trade nor a complete quote leaves every window as it is, its price above
/// all: closes of klines and levels of a full-depth book cannot overwrite it, wherever they stand
/// among the points. One beyond the earliest or the latest point only lengthens the stretch that
/// is looked at.
pub proof fn lemma_other_events_do_not_matter(
    points: Seq<PointView>,
    k: int,
    e: PointView,
    max_gap_ms: i64,
)
    requires
        0 <= k <= points.len(),
        !is_trade(e),
        !is_quote(e),
    ensures
        forall|first: int, i: nat| #[trigger]
            full_window(points.insert(k, e), first, i, max_gap_ms) == full_window(
                points,
                first,
                i,
                max_gap_ms,
            ),
        points.len() > 0 && first_window(points) <= window(e.ts) <= last_window(points)
            ==> windows(points.insert(k, e), max_gap_ms) == windows(points, max_gap_ms),
{
    let more = points.insert(k, e);
    assert forall|first: int, i: nat| #[trigger]
        full_window(more, first, i, max_gap_ms) == full_window(points, first, i, max_gap_ms) by {
        lemma_inserted_full(points, k, e, first, i, max_gap_ms);
    }
    if points.len() > 0 && first_window(points) <= window(e.ts) <= last_window(points) {
        lemma_inserted_bounds(points, k, e);
        assert(windows(more, max_gap_ms) =~= windows(points, max_gap_ms));
    }
}

} // verus!
