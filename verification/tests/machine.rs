//! The formulas, computed once more with the machine's own floating point on random markets.

use market_lab::analysis::analog::Neighbor;
use market_lab::analysis::bucket::Bucket;
use market_lab::analysis::feature::{feature_distance, price_ratios, Feature, LogReturns};
use market_lab::analysis::{
    barrier_stats, build_buckets, feature_at, microstructure_score, pattern_forecast,
};
use market_lab::model::{Exchange, MarketPoint, Prediction};
use market_lab::num::Num;
use market_lab::paper::{stats, LabConfig};

fn num(x: f64) -> Num {
    Num { bits: x.to_bits() }
}

fn val(x: Num) -> f64 {
    f64::from_bits(x.bits)
}

fn prediction() -> Prediction {
    Prediction {
        id: "position".into(),
        exchange: Exchange::Binance,
        symbol: "BTCUSDT".into(),
        created_at: 1000,
        horizon_secs: 60,
        direction: "LONG".into(),
        entry_price: num(100.),
        target_price: num(103.),
        stop_price: num(99.),
        confidence: num(0.),
        score: num(0.5),
        expected_return: num(0.),
        strategy: "flow_follow_v3".into(),
        status: "OPEN".into(),
        resolved_at: None,
        exit_price: None,
        pnl_bps: None,
        config_id: "v3-current".into(),
        fee_bps: num(10.),
        slippage_bps: num(1.),
        notional: num(1000.),
        gross_pnl_bps: None,
        cursor_id: 0,
        last_quote_ts: 1000,
        mark_price: Some(num(100.)),
        max_gap_ms: 15000,
        entry_reason: "Test fixture, not market evidence".into(),
        entry_snapshot: None,
        execution_audit: None,
    }
}

struct Random(u64);

impl Random {
    fn next(&mut self) -> u64 {
        self.0 ^= self.0 << 13;
        self.0 ^= self.0 >> 7;
        self.0 ^= self.0 << 17;
        self.0
    }

    fn unit(&mut self) -> f64 {
        (self.next() >> 11) as f64 / (1_u64 << 53) as f64
    }
}

/// A random walk with quotes, trades and a few outages.
fn market(seed: u64, seconds: i64, trend: f64) -> Vec<MarketPoint> {
    let mut random = Random(seed.wrapping_mul(0x9e37_79b9_7f4a_7c15) | 1);
    let mut price = 100.;
    let mut points = Vec::new();
    let mut second = 0;
    while second < seconds {
        price *= 1. + (random.unit() - 0.5 + trend) * 0.0004;
        let half = 0.002 + random.unit() * 0.004;
        points.push(MarketPoint {
            kind: "book_ticker".into(),
            ts: second * 1000,
            qty: None,
            side: None,
            bid_price: Some(num(price - half)),
            ask_price: Some(num(price + half)),
            bid_qty: Some(num(20. + random.unit() * 200.)),
            ask_qty: Some(num(20. + random.unit() * 200.)),
        });
        while random.unit() < 0.5 {
            points.push(MarketPoint {
                kind: "trade".into(),
                ts: second * 1000 + 500,
                qty: Some(num(random.unit() * 3.)),
                side: Some(if random.unit() < 0.5 + trend { "BUY" } else { "SELL" }.into()),
                bid_price: None,
                ask_price: None,
                bid_qty: None,
                ask_qty: None,
            });
        }
        second += if random.unit() < 0.001 { 40 } else { 1 };
    }
    points
}

fn logarithms(buckets: &Vec<Bucket>, lag: usize) -> Vec<Num> {
    price_ratios(buckets, lag)
        .into_iter()
        .map(|ratio| num(ratio.map_or(0., |r| val(r).ln())))
        .collect()
}

fn log_returns(buckets: &Vec<Bucket>) -> LogReturns {
    LogReturns {
        over_1: logarithms(buckets, 1),
        over_3: logarithms(buckets, 3),
        over_12: logarithms(buckets, 12),
        over_60: logarithms(buckets, 60),
        over_180: logarithms(buckets, 180),
        over_720: logarithms(buckets, 720),
    }
}

fn share(left: f64, right: f64) -> f64 {
    if left + right > 0. {
        ((left - right) / (left + right)).clamp(-1., 1.)
    } else {
        0.
    }
}

fn deviation(values: &[f64]) -> f64 {
    let mean = values.iter().sum::<f64>() / values.len() as f64;
    let squares = values.iter().map(|v| (v - mean) * (v - mean));
    (squares.sum::<f64>() / values.len() as f64).sqrt()
}

/// The eighteen numbers of a feature, in the order of its fields.
fn machine_feature(buckets: &[Bucket], i: usize) -> Option<[f64; 18]> {
    if i < 60 || buckets[i - 60..=i].iter().any(|b| b.price.is_none()) {
        return None;
    }
    let price = |k: usize| val(buckets[k].price.unwrap());
    let now = price(i);
    let back = |lag: usize| (now / price(i - lag)).ln();
    let flow = |count: usize| {
        let of = &buckets[i + 1 - count..=i];
        let buy = of.iter().fold(0., |sum, b| sum + val(b.buy_qty));
        let sell = of.iter().fold(0., |sum, b| sum + val(b.sell_qty));
        share(buy, sell)
    };
    let volatility = |count: usize| {
        let steps: Vec<f64> = (i - count + 1..=i)
            .map(|k| (price(k) / price(k - 1)).ln())
            .collect();
        deviation(&steps)
    };
    let book = |k: usize| {
        share(
            val(buckets[k].bid_qty.unwrap()),
            val(buckets[k].ask_qty.unwrap()),
        )
    };
    let (bid, ask) = (
        val(buckets[i].bid_price.unwrap()),
        val(buckets[i].ask_price.unwrap()),
    );
    let volume = |from: usize, to: usize| {
        buckets[from..=to]
            .iter()
            .map(|b| val(b.buy_qty) + val(b.sell_qty))
            .sum::<f64>()
    };
    let trades = |from: usize, to: usize| {
        buckets[from..=to].iter().map(|b| b.trade_count).sum::<u64>() as f64
    };
    let ratio = |recent: f64, earlier: f64| {
        if earlier > 0. {
            (recent / earlier).clamp(0., 8.)
        } else {
            1.
        }
    };
    let prices: Vec<f64> = (i - 60..=i).map(price).collect();
    let low = prices.iter().fold(now, |a, b| a.min(*b));
    let high = prices.iter().fold(now, |a, b| a.max(*b));
    let path = prices.windows(2).fold(0., |sum, w| sum + (w[1] - w[0]).abs());
    let earlier = &buckets[i - 60..i];
    let above = earlier.iter().filter_map(|b| b.high_price).all(|h| now > val(h));
    let below = earlier.iter().filter_map(|b| b.low_price).all(|l| now < val(l));
    Some([
        back(3),
        back(12),
        back(60),
        back(3) - back(12) / 4.,
        flow(3),
        flow(12),
        flow(60),
        volatility(12),
        volatility(60),
        book(i),
        (i - 11..=i).map(book).sum::<f64>() / 12.,
        (ask - bid) / ((ask + bid) / 2.) * 10_000.,
        ratio(volume(i - 11, i), volume(i - 59, i - 12) / 4.),
        ratio(trades(i - 11, i), trades(i - 59, i - 12) / 4.),
        if path > 0. {
            ((now - price(i - 60)).abs() / path).clamp(0., 1.)
        } else {
            0.
        },
        if high > low {
            ((now - low) / (high - low) * 2. - 1.).clamp(-1., 1.)
        } else {
            0.
        },
        if above {
            1.
        } else if below {
            -1.
        } else {
            0.
        },
        back(1),
    ])
}

fn numbers(f: &Feature) -> [f64; 18] {
    [
        f.ret_15s,
        f.ret_60s,
        f.ret_300s,
        f.acceleration,
        f.flow_15s,
        f.flow_60s,
        f.flow_300s,
        f.volatility_60s,
        f.volatility_300s,
        f.book_imbalance,
        f.book_imbalance_60s,
        f.spread_bps,
        f.volume_ratio,
        f.trade_intensity_ratio,
        f.trend_efficiency,
        f.range_position,
        f.breakout,
        f.turn,
    ]
    .map(val)
}

fn machine_score(f: &[f64; 18]) -> f64 {
    let sigma = |volatility: f64, steps: f64| (volatility * steps.sqrt()).max(0.000_001);
    let momentum = |x: f64, scale: f64, sigma: f64| (x / (scale * sigma)).clamp(-1., 1.);
    let activity =
        (0.75 + 0.125 * f[12].min(2.) + 0.125 * f[13].min(2.)).clamp(0.75, 1.25);
    (0.17 * f[4] * activity
        + 0.15 * f[5] * activity
        + 0.08 * f[6]
        + 0.15 * f[9]
        + 0.08 * f[10]
        + 0.14 * momentum(f[1], 2.5, sigma(f[7], 12.))
        + 0.08 * momentum(f[0], 2.2, sigma(f[7], 3.))
        + 0.08 * momentum(f[2], 2.8, sigma(f[8], 60.))
        + 0.04 * momentum(f[3], 1.5, sigma(f[7], 3.))
        + 0.03 * f[15] * f[14])
        .clamp(-1., 1.)
}

fn machine_distance(a: &[f64; 18], b: &[f64; 18]) -> f64 {
    let scales = [
        0.0015, 0.0030, 0.0060, 0.0010, 1., 1., 1., 0.0005, 0.0005, 1., 1., 3., 2., 2., 0.5, 1.,
    ];
    let squares = (0..16).map(|k| {
        let d = (a[k] - b[k]) / scales[k];
        d * d
    });
    (squares.sum::<f64>() / 16.).sqrt()
}

#[test]
fn features_scores_and_distances_agree() {
    for seed in 1..5 {
        let buckets = build_buckets(&market(seed, 2000, 0.03 * seed as f64), 15000);
        let logs = log_returns(&buckets);
        let mut last: Option<Feature> = None;
        let mut seen = 0;
        for i in 0..buckets.len() {
            let ours = feature_at(&buckets, i, &logs);
            let theirs = machine_feature(&buckets, i);
            assert_eq!(ours.as_ref().map(numbers), theirs);
            if let (Some(f), Some(m)) = (ours, theirs) {
                seen += 1;
                assert_eq!(val(microstructure_score(&f)), machine_score(&m));
                if let Some(l) = last {
                    assert_eq!(
                        val(feature_distance(&l, &f)),
                        machine_distance(&numbers(&l), &m)
                    );
                }
                last = Some(f);
            }
        }
        assert!(seen > 100);
    }
}

#[test]
fn analogs_are_the_nearest_past_states_that_do_not_overlap() {
    let buckets = build_buckets(&market(7, 8000, 0.03), 60000);
    let logs = log_returns(&buckets);
    let features: Vec<Option<Feature>> = (0..buckets.len())
        .map(|i| feature_at(&buckets, i, &logs))
        .collect();
    let now = buckets.len() - 1;
    let current = features[now].unwrap();
    let steps = 12;
    let forecast = pattern_forecast(
        &buckets,
        &features,
        now,
        steps,
        &current,
        15,
        &logarithms(&buckets, steps),
    )
    .unwrap();
    let mut candidates: Vec<(f64, usize)> = (60..now - steps - 60)
        .filter(|i| buckets[*i..=*i + steps].iter().all(|b| b.price.is_some()))
        .filter_map(|i| {
            let f = features[i].as_ref()?;
            Some((machine_distance(&numbers(&current), &numbers(f)), i))
        })
        .collect();
    candidates.sort_by(|a, b| a.0.partial_cmp(&b.0).unwrap());
    let mut picked: Vec<(f64, usize)> = Vec::new();
    for (distance, i) in candidates {
        if picked.len() < 15 && picked.iter().all(|p| p.1.abs_diff(i) >= steps + 60) {
            picked.push((distance, i));
        }
    }
    assert_eq!(forecast.neighbors.len(), 15);
    let mut weights = 0.;
    let mut sum = 0.;
    for (neighbor, (distance, i)) in forecast.neighbors.iter().zip(picked) {
        let weight = 1. / (0.20 + distance);
        let followed =
            (val(buckets[i + steps].price.unwrap()) / val(buckets[i].price.unwrap())).ln();
        assert_eq!(neighbor.index, i);
        assert_eq!(val(neighbor.weight), weight);
        assert_eq!(val(neighbor.future_return), followed);
        weights += weight;
        sum += weight * followed;
    }
    assert_eq!(val(forecast.expected_return), sum / weights);
}

/// How one past entry ended after costs: the net result, and whether it won or lost.
fn machine_ending(
    path: &[Bucket],
    long: bool,
    target_move: f64,
    stop_move: f64,
    fee: f64,
    slip: f64,
) -> (f64, i32) {
    let up = 1. + slip / 10_000.;
    let down = 1. - slip / 10_000.;
    let sign = if long { 1. } else { -1. };
    let entry = if long {
        val(path[0].ask_price.unwrap()) * up
    } else {
        val(path[0].bid_price.unwrap()) * down
    };
    let target = entry * (1. + sign * target_move);
    let stop = entry * (1. - sign * stop_move);
    let end = path.last().unwrap();
    let mut exit = if long {
        val(end.bid_price.unwrap()) * down
    } else {
        val(end.ask_price.unwrap()) * up
    };
    let mut ending = 0;
    for b in &path[1..] {
        let (best, worst) = if long {
            (val(b.bid_high.unwrap()) * down, val(b.bid_low.unwrap()) * down)
        } else {
            (val(b.ask_low.unwrap()) * up, val(b.ask_high.unwrap()) * up)
        };
        if sign * (worst - stop) <= 0. {
            exit = worst;
            ending = -1;
            break;
        }
        if sign * (best - target) >= 0. {
            exit = target;
            ending = 1;
            break;
        }
    }
    let ratio = exit / entry;
    let gross = if long { ratio - 1. } else { 1. - ratio } * 10_000.;
    (gross - fee * (1. + ratio), ending)
}

#[test]
fn past_entries_end_as_their_quotes_say() {
    let buckets = build_buckets(&market(11, 3000, 0.), 60000);
    let steps = 24;
    let neighbors: Vec<Neighbor> = (0..20)
        .map(|n| Neighbor {
            index: n * 25,
            future_return: num(0.),
            weight: num(1. / (n + 1) as f64),
        })
        .filter(|n| {
            buckets[n.index..=n.index + steps]
                .iter()
                .all(|b| b.price.is_some())
        })
        .collect();
    for long in [true, false] {
        for (target, stop) in [(0.0015, 0.0005), (0.0003, 0.0006), (0.02, 0.02)] {
            let direction = if long { "LONG" } else { "SHORT" };
            let b = barrier_stats(
                &buckets,
                &neighbors,
                steps,
                direction,
                num(target),
                num(stop),
                num(1.5),
                num(0.3),
            );
            let (mut wins, mut losses, mut timeouts) = (0, 0, 0);
            let (mut won, mut all, mut net_sum) = (0., 0., 0.);
            for n in &neighbors {
                let path = &buckets[n.index..=n.index + steps];
                let (net, ending) = machine_ending(path, long, target, stop, 1.5, 0.3);
                let weight = val(n.weight);
                all += weight;
                net_sum += net * weight;
                if ending == 1 && net > 0. {
                    wins += 1;
                    won += weight;
                } else if ending == 0 {
                    timeouts += 1;
                } else {
                    losses += 1;
                }
            }
            assert_eq!(b.samples, neighbors.len());
            assert_eq!((b.wins, b.losses, b.timeouts), (wins, losses, timeouts));
            assert_eq!(val(b.weighted_strict_win_rate), won / all);
            assert_eq!(val(b.expected_net_bps), net_sum / all);
        }
    }
}

#[test]
fn statistics_agree_in_order_of_exit() {
    let mut random = Random(12345);
    for _ in 0..100 {
        let mut items: Vec<Prediction> = Vec::new();
        for k in 0..random.next() % 30 {
            let mut p = prediction();
            p.id = format!("{}-{k}", random.next() % 5);
            p.status = ["OPEN", "WIN", "LOSS", "TIMEOUT", "DATA_GAP"][(random.next() % 5) as usize]
                .into();
            p.notional = num(100. + random.unit() * 2000.);
            if random.unit() < 0.8 {
                p.pnl_bps = Some(num((random.unit() - 0.5) * 300.));
            }
            if random.unit() < 0.9 {
                p.resolved_at = Some((random.next() % 7) as i64);
            }
            items.push(p);
        }
        let all: Vec<&Prediction> = items.iter().collect();
        let s = stats(&all, num(10000.), &LabConfig::default());
        let mut closed: Vec<&Prediction> =
            items.iter().filter(|p| p.status != "OPEN").collect();
        closed.sort_by(|a, b| (a.resolved_at, &a.id).cmp(&(b.resolved_at, &b.id)));
        let (mut balance, mut peak, mut fall) = (10000_f64, 10000_f64, 0_f64);
        let (mut net_pnl, mut sum, mut priced) = (0., 0., 0);
        for p in &closed {
            if let Some(net) = p.pnl_bps.map(val) {
                let amount = val(p.notional) * net / 10_000.;
                priced += 1;
                sum += net;
                net_pnl += amount;
                balance += amount;
                peak = peak.max(balance);
                fall = fall.max((peak - balance) / peak * 100.);
            }
        }
        assert_eq!(s.resolved, closed.len() as i64);
        assert_eq!(val(s.net_pnl), net_pnl);
        assert_eq!(val(s.closed_drawdown_pct), fall);
        assert_eq!(val(s.avg_pnl_bps), if priced > 0 { sum / priced as f64 } else { 0. });
        assert_eq!(
            val(s.return_pct),
            (net_pnl + val(s.unrealized_pnl)) / 10000. * 100.
        );
    }
}
