//! What a run of windows says about the state of the market.

use super::bucket::Bucket;
use super::series::{
    greatest, imbalance, least, mean, present, spec_greatest, spec_least, spec_mean,
    spec_standard_deviation, spec_total, standard_deviation, total,
};
use crate::num::order;
use crate::num::Num;
use vstd::prelude::*;

verus! {

/// The state of the market at the end of a window. Returns are natural logarithms of price
/// ratios; volatility is per five-second return; flows and book imbalances are signed shares.
#[derive(Debug, Clone, Copy, PartialEq, Eq, Structural)]
pub struct Feature {
    pub ret_15s: Num,
    pub ret_60s: Num,
    pub ret_300s: Num,
    pub acceleration: Num,
    pub flow_15s: Num,
    pub flow_60s: Num,
    pub flow_300s: Num,
    pub volatility_60s: Num,
    pub volatility_300s: Num,
    pub book_imbalance: Num,
    pub book_imbalance_60s: Num,
    pub spread_bps: Num,
    pub volume_ratio: Num,
    pub trade_intensity_ratio: Num,
    pub trend_efficiency: Num,
    pub range_position: Num,
    pub breakout: Num,
    pub turn: Num,
}

/// Natural logarithms of price ratios, by window: entry `i` of a list is that of the price of
/// window `i` over the price of a window so many windows earlier.
#[derive(Debug, Clone)]
pub struct LogReturns {
    pub over_1: Vec<Num>,
    pub over_3: Vec<Num>,
    pub over_12: Vec<Num>,
    pub over_60: Vec<Num>,
    pub over_180: Vec<Num>,
    pub over_720: Vec<Num>,
}

/// The logarithm at a window; zero beyond the list.
pub open spec fn spec_log_at(logs: Seq<Num>, i: int) -> Num {
    if 0 <= i < logs.len() {
        logs[i]
    } else {
        Num::zero()
    }
}

/// The logarithm at a window; zero beyond the list.
pub fn log_at(logs: &Vec<Num>, i: usize) -> (r: Num)
    ensures
        r == spec_log_at(logs@, i as int),
{
    if i < logs.len() {
        logs[i]
    } else {
        Num::zero()
    }
}

/// The ratio of the price of a window to the price of one `lag` windows earlier, where both are
/// there.
pub open spec fn price_ratio(buckets: Seq<Bucket>, i: int, lag: int) -> Option<Num> {
    if lag <= i && buckets[i].price is Some && buckets[i - lag].price is Some {
        Some(buckets[i].price->0.over(buckets[i - lag].price->0))
    } else {
        None
    }
}

/// The price ratios whose logarithms the features are made of.
pub fn price_ratios(buckets: &Vec<Bucket>, lag: usize) -> (r: Vec<Option<Num>>)
    ensures
        r@ == Seq::new(buckets@.len(), |i: int| price_ratio(buckets@, i, lag as int)),
{
    let mut ratios: Vec<Option<Num>> = Vec::new();
    for i in 0..buckets.len()
        invariant
            ratios@.len() == i,
            forall|j: int| 0 <= j < i ==> #[trigger] ratios@[j] == price_ratio(
                buckets@,
                j,
                lag as int,
            ),
    {
        if i >= lag {
            match (buckets[i].price, buckets[i - lag].price) {
                (Some(now), Some(then)) => ratios.push(Some(now.over(then))),
                _ => ratios.push(None),
            }
        } else {
            ratios.push(None);
        }
    }
    assert(ratios@ =~= Seq::new(buckets@.len(), |i: int| price_ratio(buckets@, i, lag as int)));
    ratios
}

/// The bought quantities of windows.
pub open spec fn bought(s: Seq<Bucket>) -> Seq<Num> {
    Seq::new(s.len(), |i: int| s[i].buy_qty)
}

/// The sold quantities of windows.
pub open spec fn sold(s: Seq<Bucket>) -> Seq<Num> {
    Seq::new(s.len(), |i: int| s[i].sell_qty)
}

/// The traded quantities of windows.
pub open spec fn traded(s: Seq<Bucket>) -> Seq<Num> {
    Seq::new(s.len(), |i: int| s[i].buy_qty.plus(s[i].sell_qty))
}

/// The number of trades in windows.
pub open spec fn trades(s: Seq<Bucket>) -> nat
    decreases s.len(),
{
    if s.len() == 0 {
        0
    } else {
        trades(s.drop_last()) + s.last().trade_count as nat
    }
}

/// How bids outweigh asks at the end of a window, where there is a quote.
pub open spec fn book_balance(b: Bucket) -> Option<Num> {
    if b.bid_qty is Some && b.ask_qty is Some {
        Some(imbalance(b.bid_qty->0, b.ask_qty->0))
    } else {
        None
    }
}

/// How bids outweigh asks at the ends of windows, where there are quotes.
pub open spec fn book_balances(s: Seq<Bucket>) -> Seq<Num> {
    present(Seq::new(s.len(), |i: int| book_balance(s[i])))
}

/// How bids outweigh asks over windows, on average; zero without quotes.
pub open spec fn mean_balance(s: Seq<Bucket>) -> Num {
    let values = book_balances(s);
    if values.len() == 0 {
        Num::zero()
    } else {
        spec_mean(values)
    }
}

/// The logarithm of the price change into a window, where both prices are above zero.
pub open spec fn log_return(buckets: Seq<Bucket>, logs: Seq<Num>, i: int) -> Option<Num> {
    if buckets[i - 1].price is Some && buckets[i].price is Some && Num::zero().lt(
        buckets[i - 1].price->0,
    ) && Num::zero().lt(buckets[i].price->0) {
        Some(spec_log_at(logs, i))
    } else {
        None
    }
}

/// The logarithms of the price changes into the windows behind `from`, up to `to`.
pub open spec fn returns_between(
    buckets: Seq<Bucket>,
    logs: Seq<Num>,
    from: int,
    to: int,
) -> Seq<Num> {
    present(Seq::new((to - from) as nat, |i: int| log_return(buckets, logs, from + 1 + i)))
}

/// The prices of windows that all have one.
pub open spec fn prices(s: Seq<Bucket>) -> Seq<Num> {
    Seq::new(s.len(), |i: int| s[i].price->0)
}

/// How far the price moved into each window but the first.
pub open spec fn price_steps(s: Seq<Bucket>) -> Seq<Num> {
    Seq::new(
        (s.len() - 1) as nat,
        |i: int| s[i + 1].price->0.minus(s[i].price->0).abs(),
    )
}

/// The highest prices of windows, where there are any.
pub open spec fn highs(s: Seq<Bucket>) -> Seq<Num> {
    present(Seq::new(s.len(), |i: int| s[i].high_price))
}

/// The lowest prices of windows, where there are any.
pub open spec fn lows(s: Seq<Bucket>) -> Seq<Num> {
    present(Seq::new(s.len(), |i: int| s[i].low_price))
}

/// A ratio, from zero to eight; one where there is nothing to compare with.
pub open spec fn activity(recent: Num, before: Num) -> Num {
    if Num::zero().lt(before) {
        recent.over(before).within(Num::zero(), Num::from_int(8))
    } else {
        Num::one()
    }
}

/// The spread of a quote in basis points of its middle.
pub open spec fn spread_of(bid: Num, ask: Num) -> Num {
    ask.minus(bid).over(ask.plus(bid).over(Num::from_int(2))).times(Num::from_int(10_000))
}

/// Whether the last 61 windows up to `index` are complete enough for a feature.
pub open spec fn has_feature(buckets: Seq<Bucket>, index: int) -> bool {
    &&& 60 <= index
    &&& forall|i: int| index - 60 <= i <= index ==> (#[trigger] buckets[i]).price is Some
    &&& Num::zero().lt(buckets[index].price->0) || buckets[index].price->0.is_nan()
    &&& Num::zero().lt(buckets[index - 3].price->0) || buckets[index - 3].price->0.is_nan()
    &&& Num::zero().lt(buckets[index - 12].price->0) || buckets[index - 12].price->0.is_nan()
    &&& Num::zero().lt(buckets[index - 60].price->0) || buckets[index - 60].price->0.is_nan()
    &&& buckets[index].bid_price is Some && buckets[index].ask_price is Some
    &&& Num::zero().lt(buckets[index].bid_price->0)
    &&& buckets[index].bid_price->0.le(buckets[index].ask_price->0)
}

/// How straight the price went: the distance over the way, from zero to one.
pub open spec fn efficiency(price: Num, start: Num, way: Num) -> Num {
    if Num::zero().lt(way) {
        price.minus(start).abs().over(way).within(Num::zero(), Num::one())
    } else {
        Num::zero()
    }
}

/// Where a price stands in a range, from minus one at the bottom to one at the top.
pub open spec fn position_in(price: Num, low: Num, high: Num) -> Num {
    if low.lt(high) {
        price.minus(low).over(high.minus(low)).times(Num::from_int(2)).minus(Num::one()).within(
            Num::one().negated(),
            Num::one(),
        )
    } else {
        Num::zero()
    }
}

/// Whether a price broke out of a range: one above it, minus one below it.
pub open spec fn breakout_of(price: Num, low: Num, high: Num) -> Num {
    if high.lt(price) {
        Num::one()
    } else if price.lt(low) {
        Num::one().negated()
    } else {
        Num::zero()
    }
}

/// The feature at the end of a window that has one.
pub open spec fn feature_of(buckets: Seq<Bucket>, index: int, logs: LogReturns) -> Feature {
    let price = buckets[index].price->0;
    let ret_15s = spec_log_at(logs.over_3@, index);
    let ret_60s = spec_log_at(logs.over_12@, index);
    let last_3 = buckets.subrange(index - 2, index + 1);
    let last_12 = buckets.subrange(index - 11, index + 1);
    let last_60 = buckets.subrange(index - 59, index + 1);
    let last_61 = buckets.subrange(index - 60, index + 1);
    let before_12 = buckets.subrange(index - 59, index - 11);
    let prior_60 = buckets.subrange(index - 60, index);
    let four = Num::from_int(4);
    Feature {
        ret_15s,
        ret_60s,
        ret_300s: spec_log_at(logs.over_60@, index),
        acceleration: ret_15s.minus(ret_60s.over(four)),
        flow_15s: imbalance(spec_total(bought(last_3)), spec_total(sold(last_3))),
        flow_60s: imbalance(spec_total(bought(last_12)), spec_total(sold(last_12))),
        flow_300s: imbalance(spec_total(bought(last_60)), spec_total(sold(last_60))),
        volatility_60s: spec_standard_deviation(
            returns_between(buckets, logs.over_1@, index - 12, index),
        ),
        volatility_300s: spec_standard_deviation(
            returns_between(buckets, logs.over_1@, index - 60, index),
        ),
        book_imbalance: match book_balance(buckets[index]) {
            Some(x) => x,
            None => Num::zero(),
        },
        book_imbalance_60s: mean_balance(last_12),
        spread_bps: spread_of(buckets[index].bid_price->0, buckets[index].ask_price->0),
        volume_ratio: activity(
            spec_total(traded(last_12)),
            spec_total(traded(before_12)).over(four),
        ),
        trade_intensity_ratio: activity(
            Num::from_count(trades(last_12) as u64),
            Num::from_count(trades(before_12) as u64).over(four),
        ),
        trend_efficiency: efficiency(
            price,
            buckets[index - 60].price->0,
            spec_total(price_steps(last_61)),
        ),
        range_position: position_in(
            price,
            spec_least(price, prices(last_61)),
            spec_greatest(price, prices(last_61)),
        ),
        breakout: breakout_of(
            price,
            spec_least(Num::infinity(), lows(prior_60)),
            spec_greatest(Num::infinity().negated(), highs(prior_60)),
        ),
        turn: spec_log_at(logs.over_1@, index),
    }
}

/// The bought and sold quantities of windows `from` to `to`, each summed.
fn flow_sum(buckets: &Vec<Bucket>, from: usize, to: usize) -> (r: (Num, Num))
    requires
        from <= to <= buckets.len(),
    ensures
        r.0 == spec_total(bought(buckets@.subrange(from as int, to as int))),
        r.1 == spec_total(sold(buckets@.subrange(from as int, to as int))),
{
    let mut buy: Vec<Num> = Vec::new();
    let mut sell: Vec<Num> = Vec::new();
    let ghost s = buckets@.subrange(from as int, to as int);
    let mut i: usize = from;
    while i < to
        invariant
            from <= i <= to <= buckets.len(),
            s == buckets@.subrange(from as int, to as int),
            buy@ == bought(s).take(i - from),
            sell@ == sold(s).take(i - from),
        decreases to - i,
    {
        buy.push(buckets[i].buy_qty);
        sell.push(buckets[i].sell_qty);
        assert(s[i - from] == buckets@[i as int]);
        assert(buy@ =~= bought(s).take(i - from + 1));
        assert(sell@ =~= sold(s).take(i - from + 1));
        i += 1;
    }
    assert(bought(s).take(to - from) =~= bought(s));
    assert(sold(s).take(to - from) =~= sold(s));
    (total(&buy), total(&sell))
}

/// The traded quantity of windows `from` to `to`.
fn volume_sum(buckets: &Vec<Bucket>, from: usize, to: usize) -> (r: Num)
    requires
        from <= to <= buckets.len(),
    ensures
        r == spec_total(traded(buckets@.subrange(from as int, to as int))),
{
    let mut volumes: Vec<Num> = Vec::new();
    let ghost s = buckets@.subrange(from as int, to as int);
    let mut i: usize = from;
    while i < to
        invariant
            from <= i <= to <= buckets.len(),
            s == buckets@.subrange(from as int, to as int),
            volumes@ == traded(s).take(i - from),
        decreases to - i,
    {
        volumes.push(buckets[i].buy_qty.plus(buckets[i].sell_qty));
        assert(s[i - from] == buckets@[i as int]);
        assert(volumes@ =~= traded(s).take(i - from + 1));
        i += 1;
    }
    assert(traded(s).take(to - from) =~= traded(s));
    total(&volumes)
}

/// Whether windows count few enough trades to be summed.
pub open spec fn summable(buckets: Seq<Bucket>) -> bool {
    forall|i: int|
        0 <= i < buckets.len() ==> (#[trigger] buckets[i]).trade_count <= 0x3FF_FFFF_FFFF_FFFF
}

/// The number of trades in windows `from` to `to`.
fn trade_count_sum(buckets: &Vec<Bucket>, from: usize, to: usize) -> (r: u64)
    requires
        from <= to <= buckets.len(),
        to - from <= 60,
        summable(buckets@),
    ensures
        r == trades(buckets@.subrange(from as int, to as int)),
{
    let mut sum: u64 = 0;
    let ghost s = buckets@.subrange(from as int, to as int);
    let mut i: usize = from;
    assert(s.take(0) =~= Seq::<Bucket>::empty());
    while i < to
        invariant
            from <= i <= to <= buckets.len(),
            to - from <= 60,
            summable(buckets@),
            s == buckets@.subrange(from as int, to as int),
            sum == trades(s.take(i - from)),
            sum <= 0x3FF_FFFF_FFFF_FFFF * (i - from),
        decreases to - i,
    {
        assert(buckets@[i as int].trade_count <= 0x3FF_FFFF_FFFF_FFFF);
        assert(s.take(i - from + 1).drop_last() =~= s.take(i - from));
        assert(s.take(i - from + 1).last() == buckets@[i as int]);
        sum = sum + buckets[i].trade_count;
        i += 1;
    }
    assert(s.take(to - from) =~= s);
    sum
}

/// How bids outweigh asks at the end of a window, where there is a quote.
fn bucket_book_imbalance(bucket: &Bucket) -> (r: Option<Num>)
    ensures
        r == book_balance(*bucket),
{
    match (bucket.bid_qty, bucket.ask_qty) {
        (Some(bid), Some(ask)) => Some(imbalance(bid, ask)),
        _ => None,
    }
}

/// How bids outweigh asks over windows `from` to `to`, on average; zero without quotes.
fn mean_book_imbalance(buckets: &Vec<Bucket>, from: usize, to: usize) -> (r: Num)
    requires
        from <= to <= buckets.len(),
    ensures
        r == mean_balance(buckets@.subrange(from as int, to as int)),
{
    let mut values: Vec<Num> = Vec::new();
    let ghost s = buckets@.subrange(from as int, to as int);
    let ghost all = Seq::new(s.len(), |i: int| book_balance(s[i]));
    let mut i: usize = from;
    assert(all.take(0) =~= Seq::<Option<Num>>::empty());
    while i < to
        invariant
            from <= i <= to <= buckets.len(),
            s == buckets@.subrange(from as int, to as int),
            all == Seq::new(s.len(), |i: int| book_balance(s[i])),
            values@ == present(all.take(i - from)),
        decreases to - i,
    {
        assert(all.take(i - from + 1).drop_last() =~= all.take(i - from));
        assert(all.take(i - from + 1).last() == book_balance(buckets@[i as int]));
        if let Some(x) = bucket_book_imbalance(&buckets[i]) {
            values.push(x);
        }
        i += 1;
    }
    assert(all.take(to - from) =~= all);
    if values.len() == 0 {
        Num::zero()
    } else {
        mean(&values)
    }
}

/// The logarithms of the price changes into the windows behind `from`, up to `to`.
fn log_returns(buckets: &Vec<Bucket>, logs: &Vec<Num>, from: usize, to: usize) -> (r: Vec<Num>)
    requires
        from <= to < buckets.len(),
    ensures
        r@ == returns_between(buckets@, logs@, from as int, to as int),
{
    let mut values: Vec<Num> = Vec::new();
    let ghost all = Seq::new(
        (to - from) as nat,
        |i: int| log_return(buckets@, logs@, from + 1 + i),
    );
    let mut i: usize = from;
    assert(all.take(0) =~= Seq::<Option<Num>>::empty());
    while i < to
        invariant
            from <= i <= to < buckets.len(),
            all == Seq::new(
                (to - from) as nat,
                |i: int| log_return(buckets@, logs@, from + 1 + i),
            ),
            values@ == present(all.take(i - from)),
        decreases to - i,
    {
        assert(all.take(i - from + 1).drop_last() =~= all.take(i - from));
        assert(all.take(i - from + 1).last() == log_return(buckets@, logs@, i + 1));
        if let (Some(previous), Some(current)) = (buckets[i].price, buckets[i + 1].price) {
            if Num::zero().lt(previous) && Num::zero().lt(current) {
                values.push(log_at(logs, i + 1));
            }
        }
        i += 1;
    }
    assert(all.take(to - from) =~= all);
    values
}

/// The prices of windows `from` to `to`, and how far the price moved into each but the first.
fn price_path(buckets: &Vec<Bucket>, from: usize, to: usize) -> (r: (Vec<Num>, Vec<Num>))
    requires
        from < to <= buckets.len(),
        forall|i: int| from <= i < to ==> (#[trigger] buckets@[i]).price is Some,
    ensures
        r.0@ == prices(buckets@.subrange(from as int, to as int)),
        r.1@ == price_steps(buckets@.subrange(from as int, to as int)),
{
    let ghost s = buckets@.subrange(from as int, to as int);
    let mut all: Vec<Num> = Vec::new();
    let mut steps: Vec<Num> = Vec::new();
    let mut i: usize = from;
    while i < to
        invariant
            from <= i <= to <= buckets.len(),
            s == buckets@.subrange(from as int, to as int),
            forall|i: int| from <= i < to ==> (#[trigger] buckets@[i]).price is Some,
            all@ == prices(s).take(i - from),
            steps@ == price_steps(s).take(if i > from {
                i - from - 1
            } else {
                0
            }),
        decreases to - i,
    {
        assert(buckets@[i as int].price is Some);
        let now = buckets[i].price.unwrap();
        assert(s[i - from] == buckets@[i as int]);
        all.push(now);
        assert(all@ =~= prices(s).take(i - from + 1));
        if i > from {
            assert(buckets@[i - 1].price is Some);
            let before = buckets[i - 1].price.unwrap();
            assert(s[i - from - 1] == buckets@[i - 1]);
            steps.push(now.minus(before).abs());
            assert(steps@ =~= price_steps(s).take(i - from));
        }
        i += 1;
    }
    assert(prices(s).take(to - from) =~= prices(s));
    assert(price_steps(s).take(to - from - 1) =~= price_steps(s));
    (all, steps)
}

/// The highest and lowest prices of windows `from` to `to`, where there are any.
fn price_extremes(buckets: &Vec<Bucket>, from: usize, to: usize) -> (r: (Vec<Num>, Vec<Num>))
    requires
        from <= to <= buckets.len(),
    ensures
        r.0@ == highs(buckets@.subrange(from as int, to as int)),
        r.1@ == lows(buckets@.subrange(from as int, to as int)),
{
    let ghost s = buckets@.subrange(from as int, to as int);
    let ghost up = Seq::new(s.len(), |i: int| s[i].high_price);
    let ghost down = Seq::new(s.len(), |i: int| s[i].low_price);
    let mut tops: Vec<Num> = Vec::new();
    let mut bottoms: Vec<Num> = Vec::new();
    let mut i: usize = from;
    assert(up.take(0) =~= Seq::<Option<Num>>::empty());
    assert(down.take(0) =~= Seq::<Option<Num>>::empty());
    while i < to
        invariant
            from <= i <= to <= buckets.len(),
            s == buckets@.subrange(from as int, to as int),
            up == Seq::new(s.len(), |i: int| s[i].high_price),
            down == Seq::new(s.len(), |i: int| s[i].low_price),
            tops@ == present(up.take(i - from)),
            bottoms@ == present(down.take(i - from)),
        decreases to - i,
    {
        assert(up.take(i - from + 1).drop_last() =~= up.take(i - from));
        assert(up.take(i - from + 1).last() == buckets@[i as int].high_price);
        assert(down.take(i - from + 1).drop_last() =~= down.take(i - from));
        assert(down.take(i - from + 1).last() == buckets@[i as int].low_price);
        if let Some(x) = buckets[i].high_price {
            tops.push(x);
        }
        if let Some(x) = buckets[i].low_price {
            bottoms.push(x);
        }
        i += 1;
    }
    assert(up.take(to - from) =~= up);
    assert(down.take(to - from) =~= down);
    (tops, bottoms)
}

/// A ratio, from zero to eight; one where there is nothing to compare with.
fn activity_ratio(recent: Num, before: Num) -> (r: Num)
    ensures
        r == activity(recent, before),
{
    if Num::zero().lt(before) {
        recent.over(before).within(Num::zero(), Num::from_int(8))
    } else {
        Num::one()
    }
}

/// Whether a price that must be above zero is not.
fn unusable(price: Num) -> (r: bool)
    ensures
        r == !(Num::zero().lt(price) || price.is_nan()),
{
    price.le(Num::zero())
}

/// Whether the windows up to `index` are complete enough for a feature.
fn complete(buckets: &Vec<Bucket>, index: usize) -> (r: bool)
    requires
        index < buckets.len(),
    ensures
        r == has_feature(buckets@, index as int),
{
    if index < 60 {
        return false;
    }
    let mut i: usize = index - 60;
    while i <= index
        invariant
            60 <= index < buckets.len(),
            index - 60 <= i <= index + 1,
            forall|j: int| index - 60 <= j < i ==> (#[trigger] buckets@[j]).price is Some,
        decreases index + 1 - i,
    {
        if buckets[i].price.is_none() {
            assert(buckets@[i as int].price is None);
            return false;
        }
        i += 1;
    }
    assert(buckets@[index as int].price is Some);
    assert(buckets@[index - 3].price is Some);
    assert(buckets@[index - 12].price is Some);
    assert(buckets@[index - 60].price is Some);
    if unusable(buckets[index].price.unwrap()) || unusable(buckets[index - 3].price.unwrap())
        || unusable(buckets[index - 12].price.unwrap()) || unusable(
        buckets[index - 60].price.unwrap(),
    ) {
        return false;
    }
    match (buckets[index].bid_price, buckets[index].ask_price) {
        (Some(bid), Some(ask)) => Num::zero().lt(bid) && bid.le(ask),
        _ => false,
    }
}

/// The feature at the end of a window: none where the last five minutes are not complete. The
/// logarithms of the price ratios are given.
pub fn feature_at(buckets: &Vec<Bucket>, index: usize, logs: &LogReturns) -> (r: Option<Feature>)
    requires
        index < buckets.len(),
        summable(buckets@),
    ensures
        r == if has_feature(buckets@, index as int) {
            Some(feature_of(buckets@, index as int, *logs))
        } else {
            None
        },
{
    if !complete(buckets, index) {
        return None;
    }
    let ghost s = buckets@;
    assert(s[index as int].price is Some);
    assert(s[index - 60].price is Some);
    let price = buckets[index].price.unwrap();
    let start = buckets[index - 60].price.unwrap();
    let four = Num::from_int(4);
    let ret_15s = log_at(&logs.over_3, index);
    let ret_60s = log_at(&logs.over_12, index);
    let (buy_15, sell_15) = flow_sum(buckets, index - 2, index + 1);
    let (buy_60, sell_60) = flow_sum(buckets, index - 11, index + 1);
    let (buy_300, sell_300) = flow_sum(buckets, index - 59, index + 1);
    let returns_60 = log_returns(buckets, &logs.over_1, index - 12, index);
    let returns_300 = log_returns(buckets, &logs.over_1, index - 60, index);
    let book_imbalance = match bucket_book_imbalance(&buckets[index]) {
        Some(x) => x,
        None => Num::zero(),
    };
    let bid = buckets[index].bid_price.unwrap();
    let ask = buckets[index].ask_price.unwrap();
    let spread_bps = ask.minus(bid).over(ask.plus(bid).over(Num::from_int(2))).times(
        Num::from_int(10_000),
    );
    let recent_volume = volume_sum(buckets, index - 11, index + 1);
    let previous_volume = volume_sum(buckets, index - 59, index - 11).over(four);
    let recent_trades = Num::from_count(trade_count_sum(buckets, index - 11, index + 1));
    let previous_trades = Num::from_count(
        trade_count_sum(buckets, index - 59, index - 11),
    ).over(four);
    let (all, steps) = price_path(buckets, index - 60, index + 1);
    let path_length = total(&steps);
    let low = least(price, &all);
    let high = greatest(price, &all);
    let trend_efficiency = if Num::zero().lt(path_length) {
        price.minus(start).abs().over(path_length).within(Num::zero(), Num::one())
    } else {
        Num::zero()
    };
    let range_position = if low.lt(high) {
        price.minus(low).over(high.minus(low)).times(Num::from_int(2)).minus(Num::one()).within(
            Num::one().negated(),
            Num::one(),
        )
    } else {
        Num::zero()
    };
    let (tops, bottoms) = price_extremes(buckets, index - 60, index);
    let prior_high = greatest(Num::infinity().negated(), &tops);
    let prior_low = least(Num::infinity(), &bottoms);
    let breakout = if prior_high.lt(price) {
        Num::one()
    } else if price.lt(prior_low) {
        Num::one().negated()
    } else {
        Num::zero()
    };
    Some(
        Feature {
            ret_15s,
            ret_60s,
            ret_300s: log_at(&logs.over_60, index),
            acceleration: ret_15s.minus(ret_60s.over(four)),
            flow_15s: imbalance(buy_15, sell_15),
            flow_60s: imbalance(buy_60, sell_60),
            flow_300s: imbalance(buy_300, sell_300),
            volatility_60s: standard_deviation(&returns_60),
            volatility_300s: standard_deviation(&returns_300),
            book_imbalance,
            book_imbalance_60s: mean_book_imbalance(buckets, index - 11, index + 1),
            spread_bps,
            volume_ratio: activity_ratio(recent_volume, previous_volume),
            trade_intensity_ratio: activity_ratio(recent_trades, previous_trades),
            trend_efficiency,
            range_position,
            breakout,
            turn: log_at(&logs.over_1, index),
        },
    )
}

/// The differences of two features, each by its usual size.
pub open spec fn differences(a: Feature, b: Feature) -> Seq<Num> {
    seq![
        a.ret_15s.minus(b.ret_15s).over(Num::ratio(15, 10_000)),
        a.ret_60s.minus(b.ret_60s).over(Num::ratio(30, 10_000)),
        a.ret_300s.minus(b.ret_300s).over(Num::ratio(60, 10_000)),
        a.acceleration.minus(b.acceleration).over(Num::ratio(10, 10_000)),
        a.flow_15s.minus(b.flow_15s),
        a.flow_60s.minus(b.flow_60s),
        a.flow_300s.minus(b.flow_300s),
        a.volatility_60s.minus(b.volatility_60s).over(Num::ratio(5, 10_000)),
        a.volatility_300s.minus(b.volatility_300s).over(Num::ratio(5, 10_000)),
        a.book_imbalance.minus(b.book_imbalance),
        a.book_imbalance_60s.minus(b.book_imbalance_60s),
        a.spread_bps.minus(b.spread_bps).over(Num::from_int(3)),
        a.volume_ratio.minus(b.volume_ratio).over(Num::from_int(2)),
        a.trade_intensity_ratio.minus(b.trade_intensity_ratio).over(Num::from_int(2)),
        a.trend_efficiency.minus(b.trend_efficiency).over(Num::ratio(5, 10)),
        a.range_position.minus(b.range_position),
    ]
}

/// The squares of numbers.
pub open spec fn squares(s: Seq<Num>) -> Seq<Num> {
    Seq::new(s.len(), |i: int| s[i].times(s[i]))
}

/// How far two states of the market are apart: the root of the mean square of the differences.
pub open spec fn distance(a: Feature, b: Feature) -> Num {
    spec_total(squares(differences(a, b))).over(Num::from_int(16)).root()
}

/// Two states of the market are as far apart as the other way round.
pub proof fn lemma_distance_is_mutual(a: Feature, b: Feature)
    ensures
        distance(a, b) == distance(b, a),
{
    let one = Num::one();
    order::lemma_square_of_difference(a.ret_15s, b.ret_15s, Num::ratio(15, 10_000));
    order::lemma_square_of_difference(a.ret_60s, b.ret_60s, Num::ratio(30, 10_000));
    order::lemma_square_of_difference(a.ret_300s, b.ret_300s, Num::ratio(60, 10_000));
    order::lemma_square_of_difference(a.acceleration, b.acceleration, Num::ratio(10, 10_000));
    order::lemma_square_of_difference(a.flow_15s, b.flow_15s, one);
    order::lemma_square_of_difference(a.flow_60s, b.flow_60s, one);
    order::lemma_square_of_difference(a.flow_300s, b.flow_300s, one);
    order::lemma_square_of_difference(a.volatility_60s, b.volatility_60s, Num::ratio(5, 10_000));
    order::lemma_square_of_difference(a.volatility_300s, b.volatility_300s, Num::ratio(5, 10_000));
    order::lemma_square_of_difference(a.book_imbalance, b.book_imbalance, one);
    order::lemma_square_of_difference(a.book_imbalance_60s, b.book_imbalance_60s, one);
    order::lemma_square_of_difference(a.spread_bps, b.spread_bps, Num::from_int(3));
    order::lemma_square_of_difference(a.volume_ratio, b.volume_ratio, Num::from_int(2));
    order::lemma_square_of_difference(
        a.trade_intensity_ratio,
        b.trade_intensity_ratio,
        Num::from_int(2),
    );
    order::lemma_square_of_difference(
        a.trend_efficiency,
        b.trend_efficiency,
        Num::ratio(5, 10),
    );
    order::lemma_square_of_difference(a.range_position, b.range_position, one);
    assert(squares(differences(a, b)) =~= squares(differences(b, a)));
}

/// How far two states of the market are apart.
pub fn feature_distance(left: &Feature, right: &Feature) -> (r: Num)
    ensures
        r == distance(*left, *right),
{
    let mut values: Vec<Num> = Vec::new();
    values.push(left.ret_15s.minus(right.ret_15s).over(Num::ratio(15, 10_000)));
    values.push(left.ret_60s.minus(right.ret_60s).over(Num::ratio(30, 10_000)));
    values.push(left.ret_300s.minus(right.ret_300s).over(Num::ratio(60, 10_000)));
    values.push(left.acceleration.minus(right.acceleration).over(Num::ratio(10, 10_000)));
    values.push(left.flow_15s.minus(right.flow_15s));
    values.push(left.flow_60s.minus(right.flow_60s));
    values.push(left.flow_300s.minus(right.flow_300s));
    values.push(left.volatility_60s.minus(right.volatility_60s).over(Num::ratio(5, 10_000)));
    values.push(left.volatility_300s.minus(right.volatility_300s).over(Num::ratio(5, 10_000)));
    values.push(left.book_imbalance.minus(right.book_imbalance));
    values.push(left.book_imbalance_60s.minus(right.book_imbalance_60s));
    values.push(left.spread_bps.minus(right.spread_bps).over(Num::from_int(3)));
    values.push(left.volume_ratio.minus(right.volume_ratio).over(Num::from_int(2)));
    values.push(
        left.trade_intensity_ratio.minus(right.trade_intensity_ratio).over(Num::from_int(2)),
    );
    values.push(left.trend_efficiency.minus(right.trend_efficiency).over(Num::ratio(5, 10)));
    values.push(left.range_position.minus(right.range_position));
    assert(values@ =~= differences(*left, *right));
    let ghost all = values@;
    let mut products: Vec<Num> = Vec::new();
    for i in 0..values.len()
        invariant
            values@ == all,
            products@ == squares(all).take(i as int),
    {
        products.push(values[i].times(values[i]));
        assert(products@ =~= squares(all).take(i + 1));
    }
    assert(squares(all).take(all.len() as int) =~= squares(all));
    total(&products).over(Num::from_int(16)).root()
}

/// A return in units of its volatility over `steps` windows, from minus one to one.
pub open spec fn spec_momentum(ret: Num, volatility: Num, steps: i64, tenths: i64) -> Num {
    let sigma = volatility.times(Num::from_int(steps).root()).larger(Num::ratio(1, 1_000_000));
    ret.over(Num::ratio(tenths, 10).times(sigma)).within(Num::one().negated(), Num::one())
}

/// A return in units of its volatility over `steps` windows, from minus one to one.
#[verifier::when_used_as_spec(spec_momentum)]
pub fn momentum(ret: Num, volatility: Num, steps: i64, tenths: i64) -> (r: Num)
    ensures
        r == spec_momentum(ret, volatility, steps, tenths),
{
    let sigma = volatility.times(Num::from_int(steps).root()).larger(Num::ratio(1, 1_000_000));
    ret.over(Num::ratio(tenths, 10).times(sigma)).within(Num::one().negated(), Num::one())
}

/// How the state of the market leans, from minus one to one: a weighted sum of flow, book and
/// momentum.
pub open spec fn score_of(f: Feature) -> Num {
    let two = Num::from_int(2);
    let boost = Num::ratio(75, 100).plus(
        Num::ratio(125, 1000).times(f.volume_ratio.smaller(two)),
    ).plus(Num::ratio(125, 1000).times(f.trade_intensity_ratio.smaller(two))).within(
        Num::ratio(75, 100),
        Num::ratio(125, 100),
    );
    Num::ratio(17, 100).times(f.flow_15s).times(boost).plus(
        Num::ratio(15, 100).times(f.flow_60s).times(boost),
    ).plus(Num::ratio(8, 100).times(f.flow_300s)).plus(
        Num::ratio(15, 100).times(f.book_imbalance),
    ).plus(Num::ratio(8, 100).times(f.book_imbalance_60s)).plus(
        Num::ratio(14, 100).times(momentum(f.ret_60s, f.volatility_60s, 12, 25)),
    ).plus(Num::ratio(8, 100).times(momentum(f.ret_15s, f.volatility_60s, 3, 22))).plus(
        Num::ratio(8, 100).times(momentum(f.ret_300s, f.volatility_300s, 60, 28)),
    ).plus(Num::ratio(4, 100).times(momentum(f.acceleration, f.volatility_60s, 3, 15))).plus(
        Num::ratio(3, 100).times(f.range_position).times(f.trend_efficiency),
    ).within(Num::one().negated(), Num::one())
}

/// How the state of the market leans, from minus one to one.
pub fn microstructure_score(feature: &Feature) -> (r: Num)
    ensures
        r == score_of(*feature),
{
    let two = Num::from_int(2);
    let boost = Num::ratio(75, 100).plus(
        Num::ratio(125, 1000).times(feature.volume_ratio.smaller(two)),
    ).plus(Num::ratio(125, 1000).times(feature.trade_intensity_ratio.smaller(two))).within(
        Num::ratio(75, 100),
        Num::ratio(125, 100),
    );
    let flow = Num::ratio(17, 100).times(feature.flow_15s).times(boost).plus(
        Num::ratio(15, 100).times(feature.flow_60s).times(boost),
    ).plus(Num::ratio(8, 100).times(feature.flow_300s));
    let book = flow.plus(Num::ratio(15, 100).times(feature.book_imbalance)).plus(
        Num::ratio(8, 100).times(feature.book_imbalance_60s),
    );
    let trend = book.plus(
        Num::ratio(14, 100).times(momentum(feature.ret_60s, feature.volatility_60s, 12, 25)),
    ).plus(
        Num::ratio(8, 100).times(momentum(feature.ret_15s, feature.volatility_60s, 3, 22)),
    ).plus(
        Num::ratio(8, 100).times(momentum(feature.ret_300s, feature.volatility_300s, 60, 28)),
    ).plus(
        Num::ratio(4, 100).times(
            momentum(feature.acceleration, feature.volatility_60s, 3, 15),
        ),
    );
    trend.plus(
        Num::ratio(3, 100).times(feature.range_position).times(feature.trend_efficiency),
    ).within(Num::one().negated(), Num::one())
}

} // verus!
