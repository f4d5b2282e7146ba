//! Past states of the market that resemble the present one, and what followed them.

use super::bucket::Bucket;
use super::feature::{distance, feature_distance, log_at, spec_log_at, Feature};
use super::series::{spec_total, total};
use crate::num::laws;
use crate::num::order;
use crate::num::Num;
use crate::paper;
use crate::text;
use vstd::prelude::*;

verus! {

/// A past state: its window, the return that followed and its weight.
#[derive(Debug, Clone, Copy, PartialEq, Eq, Structural)]
pub struct Neighbor {
    pub index: usize,
    pub future_return: Num,
    pub weight: Num,
}

/// What resembling states of the past suggest.
#[derive(Debug, Clone)]
pub struct AnalogForecast {
    pub expected_return: Num,
    pub neighbors: Vec<Neighbor>,
}

/// A window that may be compared with the present, by its distance from it.
#[derive(Debug, Clone, Copy, PartialEq, Eq, Structural)]
pub struct Candidate {
    pub distance: Num,
    pub index: usize,
}

/// Whether the outcome of a window is known: prices throughout, a feature, and prices above zero
/// at both ends.
pub open spec fn is_candidate(
    buckets: Seq<Bucket>,
    features: Seq<Option<Feature>>,
    index: int,
    steps: int,
) -> bool {
    &&& forall|i: int| index <= i <= index + steps ==> (#[trigger] buckets[i]).price is Some
    &&& features[index] is Some
    &&& !buckets[index].price->0.le(Num::zero())
    &&& !buckets[index + steps].price->0.le(Num::zero())
}

/// The candidates among windows 60 to `end`, in order.
pub open spec fn candidates(
    buckets: Seq<Bucket>,
    features: Seq<Option<Feature>>,
    end: int,
    steps: int,
    current: Feature,
) -> Seq<Candidate>
    decreases end,
{
    if end <= 60 {
        Seq::empty()
    } else {
        let rest = candidates(buckets, features, end - 1, steps, current);
        if is_candidate(buckets, features, end - 1, steps) {
            rest.push(
                Candidate {
                    distance: distance(current, features[end - 1]->0),
                    index: (end - 1) as usize,
                },
            )
        } else {
            rest
        }
    }
}

/// The place of a distance in the order: nearest first, no number last.
pub open spec fn order_of(d: Num) -> int {
    if d.is_nan() {
        0x1_0000_0000_0000_0000
    } else {
        d.rank()
    }
}

/// Candidates in order of distance with one more, behind all that are not farther.
pub open spec fn sorted_in(s: Seq<Candidate>, c: Candidate) -> Seq<Candidate>
    decreases s.len(),
{
    if s.len() > 0 && order_of(s.last().distance) > order_of(c.distance) {
        sorted_in(s.drop_last(), c).push(s.last())
    } else {
        s.push(c)
    }
}

/// Candidates in order of distance, those of one distance in their own order.
pub open spec fn by_distance(s: Seq<Candidate>) -> Seq<Candidate>
    decreases s.len(),
{
    if s.len() == 0 {
        Seq::empty()
    } else {
        sorted_in(by_distance(s.drop_last()), s.last())
    }
}

/// Whether two windows are at least `separation` apart.
pub open spec fn apart(a: int, b: int, separation: int) -> bool {
    a - b >= separation || b - a >= separation
}

/// Candidates taken from the nearest on, none too close to one taken before, up to `most`, and at
/// least one.
pub open spec fn chosen(s: Seq<Candidate>, separation: int, most: int) -> Seq<Candidate>
    decreases s.len(),
{
    if s.len() == 0 {
        Seq::empty()
    } else {
        let rest = chosen(s.drop_last(), separation, most);
        if (rest.len() == 0 || rest.len() < most) && forall|j: int|
            0 <= j < rest.len() ==> apart(
                (#[trigger] rest[j]).index as int,
                s.last().index as int,
                separation,
            ) {
            rest.push(s.last())
        } else {
            rest
        }
    }
}

/// A candidate as evidence: the nearer the heavier.
pub open spec fn neighbor_of(c: Candidate, steps: int, future: Seq<Num>) -> Neighbor {
    Neighbor {
        index: c.index,
        future_return: spec_log_at(future, c.index + steps),
        weight: Num::one().over(Num::ratio(20, 100).plus(c.distance)),
    }
}

/// The evidence that the past gives: resembling states whose feature and outcome windows lie
/// apart from each other and from the present.
pub open spec fn evidence(
    buckets: Seq<Bucket>,
    features: Seq<Option<Feature>>,
    current_index: int,
    steps: int,
    current: Feature,
    most: int,
    future: Seq<Num>,
) -> Seq<Neighbor> {
    let picked = chosen(
        by_distance(candidates(buckets, features, current_index - steps - 60, steps, current)),
        steps + 60,
        most,
    );
    Seq::new(picked.len(), |i: int| neighbor_of(picked[i], steps, future))
}

/// The weights of evidence.
pub open spec fn weights(s: Seq<Neighbor>) -> Seq<Num> {
    Seq::new(s.len(), |i: int| s[i].weight)
}

/// The returns of evidence, each times its weight.
pub open spec fn weighted_returns(s: Seq<Neighbor>) -> Seq<Num> {
    Seq::new(s.len(), |i: int| s[i].weight.times(s[i].future_return))
}

/// Whether there is enough evidence: more than 61 windows to look at, at least eight analogs, and
/// a weight that is not zero or less.
pub open spec fn suffices(s: Seq<Neighbor>, latest: int) -> bool {
    &&& latest > 61
    &&& s.len() >= 8
    &&& !spec_total(weights(s)).le(Num::zero())
}

/// Whether candidates are in order of distance.
pub open spec fn in_distance_order(s: Seq<Candidate>) -> bool {
    forall|i: int, j: int|
        0 <= i < j < s.len() ==> order_of((#[trigger] s[i]).distance) <= order_of(
            (#[trigger] s[j]).distance,
        )
}

proof fn lemma_sorted_at(s: Seq<Candidate>, c: Candidate, k: int)
    requires
        0 <= k <= s.len(),
        forall|i: int|
            k <= i < s.len() ==> order_of((#[trigger] s[i]).distance) > order_of(c.distance),
        k > 0 ==> order_of(s[k - 1].distance) <= order_of(c.distance),
    ensures
        sorted_in(s, c) == s.insert(k, c),
    decreases s.len(),
{
    if k == s.len() {
        assert(s.insert(k, c) =~= s.push(c));
    } else {
        assert forall|i: int| k <= i < s.drop_last().len() implies order_of(
            (#[trigger] s.drop_last()[i]).distance,
        ) > order_of(c.distance) by {
            assert(s.drop_last()[i] == s[i]);
        }
        lemma_sorted_at(s.drop_last(), c, k);
        assert(order_of(s[s.len() - 1].distance) > order_of(c.distance));
        assert(s.drop_last().insert(k, c).push(s.last()) =~= s.insert(k, c));
    }
}

/// Whether a distance comes after another in the order.
fn farther(a: Num, b: Num) -> (r: bool)
    ensures
        r == (order_of(a) > order_of(b)),
{
    if a.is_nan() {
        !b.is_nan()
    } else if b.is_nan() {
        false
    } else {
        b.lt(a)
    }
}

/// Puts a candidate in its place among candidates in order of distance.
fn sort_in(list: &mut Vec<Candidate>, c: Candidate)
    requires
        in_distance_order(old(list)@),
    ensures
        in_distance_order(final(list)@),
        final(list)@ == sorted_in(old(list)@, c),
{
    let ghost s = list@;
    let mut low: usize = 0;
    let mut high: usize = list.len();
    while low < high
        invariant
            low <= high <= list.len(),
            s == list@,
            s == old(list)@,
            in_distance_order(s),
            forall|i: int|
                0 <= i < low ==> order_of((#[trigger] s[i]).distance) <= order_of(c.distance),
            forall|i: int|
                high <= i < s.len() ==> order_of((#[trigger] s[i]).distance) > order_of(
                    c.distance,
                ),
        decreases high - low,
    {
        let mid = low + (high - low) / 2;
        if farther(list[mid].distance, c.distance) {
            assert forall|i: int| mid <= i < s.len() implies order_of(
                (#[trigger] s[i]).distance,
            ) > order_of(c.distance) by {
                if i > mid {
                    assert(order_of(s[mid as int].distance) <= order_of(s[i].distance));
                }
            }
            high = mid;
        } else {
            assert forall|i: int| 0 <= i < mid + 1 implies order_of((#[trigger] s[i]).distance)
                <= order_of(c.distance) by {
                if i < mid {
                    assert(order_of(s[i].distance) <= order_of(s[mid as int].distance));
                }
            }
            low = mid + 1;
        }
    }
    proof {
        lemma_sorted_at(s, c, low as int);
    }
    list.insert(low, c);
    assert(list@ == s.insert(low as int, c));
    proof {
        let t = list@;
        let k = low as int;
        assert forall|i: int, j: int| 0 <= i < j < t.len() implies order_of(
            (#[trigger] t[i]).distance,
        ) <= order_of((#[trigger] t[j]).distance) by {
            let a = if i < k {
                s[i]
            } else if i == k {
                c
            } else {
                s[i - 1]
            };
            let b = if j < k {
                s[j]
            } else if j == k {
                c
            } else {
                s[j - 1]
            };
            assert(t[i] == a && t[j] == b);
            if i < k && j > k {
                assert(order_of(s[i].distance) <= order_of(c.distance));
                assert(order_of(s[j - 1].distance) > order_of(c.distance));
            }
        }
    }
}

/// Candidates in order of distance.
fn sort_candidates(list: &Vec<Candidate>) -> (r: Vec<Candidate>)
    ensures
        r@ == by_distance(list@),
{
    let mut sorted: Vec<Candidate> = Vec::new();
    assert(list@.take(0) =~= Seq::<Candidate>::empty());
    for n in 0..list.len()
        invariant
            in_distance_order(sorted@),
            sorted@ == by_distance(list@.take(n as int)),
    {
        assert(list@.take(n + 1).drop_last() =~= list@.take(n as int));
        assert(list@.take(n + 1).last() == list@[n as int]);
        sort_in(&mut sorted, list[n]);
    }
    assert(list@.take(list@.len() as int) =~= list@);
    sorted
}

/// How many windows before each have no price.
pub open spec fn missing_before(buckets: Seq<Bucket>, n: int) -> nat
    decreases n,
{
    if n <= 0 {
        0
    } else {
        missing_before(buckets, n - 1) + (if buckets[n - 1].price is None {
            1nat
        } else {
            0nat
        })
    }
}

/// The count of missing prices stays the same exactly over windows that all have one.
proof fn lemma_missing(buckets: Seq<Bucket>, from: int, to: int)
    requires
        0 <= from <= to,
    ensures
        missing_before(buckets, from) <= missing_before(buckets, to),
        (missing_before(buckets, from) == missing_before(buckets, to)) == (forall|i: int|
            from <= i < to ==> (#[trigger] buckets[i]).price is Some),
    decreases to,
{
    if from < to {
        lemma_missing(buckets, from, to - 1);
        if missing_before(buckets, from) == missing_before(buckets, to) {
            assert forall|i: int| from <= i < to implies (#[trigger] buckets[i]).price is Some by {
                if i < to - 1 {
                }
            }
        } else if forall|i: int| from <= i < to ==> (#[trigger] buckets[i]).price is Some {
            assert(buckets[to - 1].price is Some);
        }
    }
}

/// How many windows before each have no price.
fn missing_prefix(buckets: &Vec<Bucket>) -> (r: Vec<usize>)
    ensures
        r@.len() == buckets@.len() + 1,
        forall|i: int|
            0 <= i <= buckets@.len() ==> #[trigger] r@[i] == missing_before(buckets@, i),
{
    let mut counts: Vec<usize> = Vec::new();
    counts.push(0);
    for i in 0..buckets.len()
        invariant
            counts@.len() == i + 1,
            forall|j: int| 0 <= j <= i ==> #[trigger] counts@[j] == missing_before(buckets@, j),
            counts@[i as int] <= i,
    {
        let here = counts[i];
        assert(missing_before(buckets@, i + 1) == missing_before(buckets@, i as int) + (
        if buckets@[i as int].price is None {
            1nat
        } else {
            0nat
        }));
        if buckets[i].price.is_none() {
            counts.push(here + 1);
        } else {
            counts.push(here);
        }
    }
    counts
}

/// The candidates among windows 60 to `end`, in order.
fn find_candidates(
    buckets: &Vec<Bucket>,
    features: &Vec<Option<Feature>>,
    end: usize,
    steps: usize,
    current: &Feature,
) -> (r: Vec<Candidate>)
    requires
        end + steps < buckets.len(),
        features.len() == buckets.len(),
    ensures
        r@ == candidates(buckets@, features@, end as int, steps as int, *current),
{
    let counts = missing_prefix(buckets);
    let mut found: Vec<Candidate> = Vec::new();
    let mut index: usize = 60;
    while index < end
        invariant
            60 <= index,
            end + steps < buckets.len(),
            features.len() == buckets.len(),
            counts@.len() == buckets@.len() + 1,
            forall|i: int|
                0 <= i <= buckets@.len() ==> #[trigger] counts@[i] == missing_before(buckets@, i),
            index <= end || end < 60,
            found@ == candidates(
                buckets@,
                features@,
                if index <= end {
                    index as int
                } else {
                    end as int
                },
                steps as int,
                *current,
            ),
        decreases end - index,
    {
        let ghost i = index as int;
        proof {
            lemma_missing(buckets@, i, i + steps + 1);
            assert(counts@[i + steps + 1] == missing_before(buckets@, i + steps + 1));
            assert(counts@[i] == missing_before(buckets@, i));
        }
        if counts[index + steps + 1] == counts[index] {
            assert(buckets@[i].price is Some && buckets@[i + steps].price is Some);
            if let Some(feature) = features[index] {
                let entry = buckets[index].price.unwrap();
                let future = buckets[index + steps].price.unwrap();
                if !entry.le(Num::zero()) && !future.le(Num::zero()) {
                    found.push(
                        Candidate { distance: feature_distance(current, &feature), index },
                    );
                }
            }
        }
        index += 1;
    }
    found
}

/// Candidates taken from the nearest on, none too close to one taken before.
fn choose_apart(sorted: &Vec<Candidate>, separation: usize, most: usize) -> (r: Vec<Candidate>)
    ensures
        r@ == chosen(sorted@, separation as int, most as int),
{
    let mut taken: Vec<Candidate> = Vec::new();
    assert(sorted@.take(0) =~= Seq::<Candidate>::empty());
    for n in 0..sorted.len()
        invariant
            taken@ == chosen(sorted@.take(n as int), separation as int, most as int),
    {
        let c = sorted[n];
        assert(sorted@.take(n + 1).drop_last() =~= sorted@.take(n as int));
        assert(sorted@.take(n + 1).last() == c);
        if taken.len() == 0 || taken.len() < most {
            let mut clear = true;
            for j in 0..taken.len()
                invariant
                    clear == (forall|i: int|
                        0 <= i < j ==> apart(
                            (#[trigger] taken@[i]).index as int,
                            c.index as int,
                            separation as int,
                        )),
            {
                let other = taken[j].index;
                let between = if other > c.index {
                    other - c.index
                } else {
                    c.index - other
                };
                if between < separation {
                    assert(!apart(
                        taken@[j as int].index as int,
                        c.index as int,
                        separation as int,
                    ));
                    clear = false;
                }
            }
            if clear {
                taken.push(c);
            }
        }
    }
    assert(sorted@.take(sorted@.len() as int) =~= sorted@);
    taken
}

/// What resembling states of the past suggest, from the given logarithms of the returns over
/// `horizon_steps` windows; none without enough of them.
pub fn pattern_forecast(
    buckets: &Vec<Bucket>,
    features: &Vec<Option<Feature>>,
    current_index: usize,
    horizon_steps: usize,
    current: &Feature,
    max_neighbors: usize,
    future: &Vec<Num>,
) -> (r: Option<AnalogForecast>)
    requires
        current_index < buckets.len(),
        features.len() == buckets.len(),
        horizon_steps + 60 <= usize::MAX,
    ensures
        ({
            let s = evidence(
                buckets@,
                features@,
                current_index as int,
                horizon_steps as int,
                *current,
                max_neighbors as int,
                future@,
            );
            match r {
                Some(forecast) => {
                    &&& suffices(s, current_index - horizon_steps - 60)
                    &&& forecast.neighbors@ == s
                    &&& forecast.expected_return == spec_total(weighted_returns(s)).over(
                        spec_total(weights(s)),
                    )
                },
                None => !suffices(s, current_index - horizon_steps - 60),
            }
        }),
{
    let ghost s = evidence(
        buckets@,
        features@,
        current_index as int,
        horizon_steps as int,
        *current,
        max_neighbors as int,
        future@,
    );
    if current_index < horizon_steps + 60 {
        return None;
    }
    let latest = current_index - (horizon_steps + 60);
    if latest <= 61 {
        return None;
    }
    let found = find_candidates(buckets, features, latest, horizon_steps, current);
    let sorted = sort_candidates(&found);
    // Adjacent windows are highly correlated and no independent evidence. Both the feature and the
    // outcome windows of analogs lie apart.
    let picked = choose_apart(&sorted, horizon_steps + 60, max_neighbors);
    let ghost chosen_ones = picked@;
    let mut neighbors: Vec<Neighbor> = Vec::new();
    let mut heavy: Vec<Num> = Vec::new();
    let mut products: Vec<Num> = Vec::new();
    proof {
        lemma_chosen_in_range(
            buckets@,
            features@,
            latest as int,
            horizon_steps as int,
            *current,
            max_neighbors as int,
        );
    }
    for n in 0..picked.len()
        invariant
            picked@ == chosen_ones,
            s.len() == chosen_ones.len(),
            forall|i: int|
                0 <= i < s.len() ==> #[trigger] s[i] == neighbor_of(
                    chosen_ones[i],
                    horizon_steps as int,
                    future@,
                ),
            forall|i: int|
                0 <= i < chosen_ones.len() ==> (#[trigger] chosen_ones[i]).index + horizon_steps
                    <= usize::MAX,
            neighbors@ == s.take(n as int),
            heavy@ == weights(s).take(n as int),
            products@ == weighted_returns(s).take(n as int),
    {
        let c = picked[n];
        assert(chosen_ones[n as int] == c);
        let weight = Num::one().over(Num::ratio(20, 100).plus(c.distance));
        let future_return = log_at(future, c.index + horizon_steps);
        assert(s[n as int] == neighbor_of(c, horizon_steps as int, future@));
        neighbors.push(Neighbor { index: c.index, future_return, weight });
        heavy.push(weight);
        products.push(weight.times(future_return));
        assert(neighbors@ =~= s.take(n + 1));
        assert(heavy@ =~= weights(s).take(n + 1));
        assert(products@ =~= weighted_returns(s).take(n + 1));
    }
    assert(neighbors@ =~= s);
    assert(heavy@ =~= weights(s));
    assert(products@ =~= weighted_returns(s));
    if neighbors.len() < 8 {
        return None;
    }
    let weight_sum = total(&heavy);
    if weight_sum.le(Num::zero()) {
        return None;
    }
    let expected_return = total(&products).over(weight_sum);
    Some(AnalogForecast { expected_return, neighbors })
}

/// Every candidate in order of distance is one of the candidates.
proof fn lemma_sorted_members(s: Seq<Candidate>, c: Candidate, limit: int)
    requires
        forall|i: int| 0 <= i < s.len() ==> 60 <= (#[trigger] s[i]).index < limit,
        60 <= c.index < limit,
    ensures
        forall|i: int|
            0 <= i < sorted_in(s, c).len() ==> 60 <= (#[trigger] sorted_in(s, c)[i]).index
                < limit,
    decreases s.len(),
{
    if s.len() > 0 && order_of(s.last().distance) > order_of(c.distance) {
        let rest = s.drop_last();
        assert forall|i: int| 0 <= i < rest.len() implies 60 <= (#[trigger] rest[i]).index
            < limit by {
            assert(rest[i] == s[i]);
        }
        lemma_sorted_members(rest, c, limit);
        assert(60 <= s[s.len() - 1].index < limit);
        let t = sorted_in(s, c);
        let r = sorted_in(rest, c);
        assert(t == r.push(s.last()));
        assert forall|i: int| 0 <= i < t.len() implies 60 <= (#[trigger] t[i]).index < limit by {
            if i < r.len() {
                assert(t[i] == r[i]);
            }
        }
    } else {
        let t = sorted_in(s, c);
        assert forall|i: int| 0 <= i < t.len() implies 60 <= (#[trigger] t[i]).index < limit by {
            if i < s.len() {
                assert(t[i] == s[i]);
            }
        }
    }
}

proof fn lemma_by_distance_members(s: Seq<Candidate>, limit: int)
    requires
        forall|i: int| 0 <= i < s.len() ==> 60 <= (#[trigger] s[i]).index < limit,
    ensures
        forall|i: int|
            0 <= i < by_distance(s).len() ==> 60 <= (#[trigger] by_distance(s)[i]).index
                < limit,
    decreases s.len(),
{
    if s.len() > 0 {
        let rest = s.drop_last();
        assert forall|i: int| 0 <= i < rest.len() implies 60 <= (#[trigger] rest[i]).index
            < limit by {
            assert(rest[i] == s[i]);
        }
        lemma_by_distance_members(rest, limit);
        assert(60 <= s[s.len() - 1].index < limit);
        lemma_sorted_members(by_distance(rest), s.last(), limit);
    }
}

proof fn lemma_candidates_members(
    buckets: Seq<Bucket>,
    features: Seq<Option<Feature>>,
    end: int,
    steps: int,
    current: Feature,
)
    requires
        end <= usize::MAX,
    ensures
        forall|i: int|
            0 <= i < candidates(buckets, features, end, steps, current).len() ==> 60 <= (
            #[trigger] candidates(buckets, features, end, steps, current)[i]).index < end,
    decreases end,
{
    if end > 60 {
        lemma_candidates_members(buckets, features, end - 1, steps, current);
        let r = candidates(buckets, features, end - 1, steps, current);
        let t = candidates(buckets, features, end, steps, current);
        assert forall|i: int| 0 <= i < t.len() implies 60 <= (#[trigger] t[i]).index < end by {
            if i < r.len() {
                assert(t[i] == r[i]);
            }
        }
    }
}

proof fn lemma_chosen_members(s: Seq<Candidate>, separation: int, most: int, limit: int)
    requires
        forall|i: int| 0 <= i < s.len() ==> 60 <= (#[trigger] s[i]).index < limit,
    ensures
        forall|i: int|
            0 <= i < chosen(s, separation, most).len() ==> 60 <= (#[trigger] chosen(
                s,
                separation,
                most,
            )[i]).index < limit,
        forall|i: int, j: int|
            0 <= i < j < chosen(s, separation, most).len() ==> apart(
                (#[trigger] chosen(s, separation, most)[i]).index as int,
                (#[trigger] chosen(s, separation, most)[j]).index as int,
                separation,
            ),
    decreases s.len(),
{
    if s.len() > 0 {
        let rest = s.drop_last();
        assert forall|i: int| 0 <= i < rest.len() implies 60 <= (#[trigger] rest[i]).index
            < limit by {
            assert(rest[i] == s[i]);
        }
        lemma_chosen_members(rest, separation, most, limit);
        assert(60 <= s[s.len() - 1].index < limit);
        let r = chosen(rest, separation, most);
        let t = chosen(s, separation, most);
        assert forall|i: int| 0 <= i < t.len() implies 60 <= (#[trigger] t[i]).index < limit by {
            if i < r.len() {
                assert(t[i] == r[i]);
            }
        }
        assert forall|i: int, j: int| 0 <= i < j < t.len() implies apart(
            (#[trigger] t[i]).index as int,
            (#[trigger] t[j]).index as int,
            separation,
        ) by {
            assert(t[i] == r[i]);
            if j < r.len() {
                assert(t[j] == r[j]);
            } else {
                assert(apart(r[i].index as int, s.last().index as int, separation));
            }
        }
    }
}

proof fn lemma_chosen_in_range(
    buckets: Seq<Bucket>,
    features: Seq<Option<Feature>>,
    latest: int,
    steps: int,
    current: Feature,
    most: int,
)
    requires
        latest <= usize::MAX,
    ensures
        ({
            let picked = chosen(
                by_distance(candidates(buckets, features, latest, steps, current)),
                steps + 60,
                most,
            );
            &&& forall|i: int|
                0 <= i < picked.len() ==> 60 <= (#[trigger] picked[i]).index < latest
            &&& forall|i: int, j: int|
                0 <= i < j < picked.len() ==> apart(
                    (#[trigger] picked[i]).index as int,
                    (#[trigger] picked[j]).index as int,
                    steps + 60,
                )
        }),
{
    let all = candidates(buckets, features, latest, steps, current);
    lemma_candidates_members(buckets, features, latest, steps, current);
    lemma_by_distance_members(all, latest);
    lemma_chosen_members(by_distance(all), steps + 60, most, latest);
}

/// The feature and outcome windows of any two analogs lie apart, and those of each analog end
/// before the feature windows of the present begin.
pub proof fn lemma_analogs_are_disjoint(
    buckets: Seq<Bucket>,
    features: Seq<Option<Feature>>,
    current_index: int,
    steps: int,
    current: Feature,
    most: int,
    future: Seq<Num>,
)
    requires
        0 <= steps,
        current_index <= usize::MAX,
    ensures
        ({
            let s = evidence(buckets, features, current_index, steps, current, most, future);
            &&& forall|i: int|
                0 <= i < s.len() ==> {
                    &&& 60 <= (#[trigger] s[i]).index
                    &&& s[i].index + steps < current_index - 60
                }
            &&& forall|i: int, j: int|
                0 <= i < j < s.len() ==> apart(
                    (#[trigger] s[i]).index as int,
                    (#[trigger] s[j]).index as int,
                    steps + 60,
                )
        }),
{
    let latest = current_index - steps - 60;
    lemma_chosen_in_range(buckets, features, latest, steps, current, most);
    let picked = chosen(
        by_distance(candidates(buckets, features, latest, steps, current)),
        steps + 60,
        most,
    );
    let s = evidence(buckets, features, current_index, steps, current, most, future);
    assert forall|i: int| 0 <= i < s.len() implies 60 <= (#[trigger] s[i]).index && s[i].index
        + steps < current_index - 60 by {
        assert(60 <= picked[i].index < latest);
    }
    assert forall|i: int, j: int| 0 <= i < j < s.len() implies apart(
        (#[trigger] s[i]).index as int,
        (#[trigger] s[j]).index as int,
        steps + 60,
    ) by {
        assert(apart(picked[i].index as int, picked[j].index as int, steps + 60));
    }
}

/// Analogs take room: each needs its feature and outcome windows for itself, so that no more fit
/// than there are such stretches before the present.
pub proof fn lemma_analogs_take_room(
    buckets: Seq<Bucket>,
    features: Seq<Option<Feature>>,
    current_index: int,
    steps: int,
    current: Feature,
    most: int,
    future: Seq<Num>,
)
    requires
        0 <= steps,
        current_index <= usize::MAX,
    ensures
        ({
            let s = evidence(buckets, features, current_index, steps, current, most, future);
            s.len() > 0 ==> s.len() * (steps + 60) <= current_index - 61
        }),
{
    let s = evidence(buckets, features, current_index, steps, current, most, future);
    let sep = steps + 60;
    lemma_analogs_are_disjoint(buckets, features, current_index, steps, current, most, future);
    if s.len() > 0 {
        // The stretch, counted from the first possible one, in which an analog lies.
        let stretches = Seq::new(s.len(), |i: int| (s[i].index - 60) / sep);
        let top = (current_index - 61) / sep;
        assert forall|i: int| 0 <= i < s.len() implies 0 <= #[trigger] stretches[i] < top by {
            let at = s[i].index - 60;
            assert(at + sep <= current_index - 61);
            vstd::arithmetic::div_mod::lemma_div_pos_is_pos(at, sep);
            vstd::arithmetic::div_mod::lemma_div_is_ordered(at + sep, current_index - 61, sep);
            vstd::arithmetic::div_mod::lemma_div_plus_one(at, sep);
        }
        assert forall|i: int, j: int| 0 <= i < j < s.len() implies stretches[i]
            != stretches[j] by {
            let a = s[i].index - 60;
            let b = s[j].index - 60;
            assert(apart(s[i].index as int, s[j].index as int, sep));
            if a <= b {
                vstd::arithmetic::div_mod::lemma_div_plus_one(a, sep);
                vstd::arithmetic::div_mod::lemma_div_is_ordered(a + sep, b, sep);
            } else {
                vstd::arithmetic::div_mod::lemma_div_plus_one(b, sep);
                vstd::arithmetic::div_mod::lemma_div_is_ordered(b + sep, a, sep);
            }
        }
        assert(stretches.no_duplicates());
        stretches.unique_seq_to_set();
        let range = vstd::set_lib::set_int_range(0, top);
        assert(0 <= stretches[0] < top);
        vstd::set_lib::lemma_int_range(0, top);
        assert(stretches.to_set().subset_of(range));
        vstd::set_lib::lemma_len_subset(stretches.to_set(), range);
        vstd::arithmetic::div_mod::lemma_fundamental_div_mod(current_index - 61, sep);
        vstd::arithmetic::div_mod::lemma_mod_bound(current_index - 61, sep);
        vstd::arithmetic::mul::lemma_mul_is_commutative(sep, top);
        assert(s.len() * sep <= current_index - 61) by (nonlinear_arith)
            requires
                s.len() <= top,
                top * sep <= current_index - 61,
                sep > 0,
        ;
    }
}

/// What became of past entries.
#[derive(Debug, Clone, Copy, PartialEq, Eq, Structural)]
pub struct BarrierStats {
    pub samples: usize,
    pub wins: usize,
    pub losses: usize,
    pub timeouts: usize,
    pub weighted_strict_win_rate: Num,
    pub wilson_lower_bound: Num,
    pub expected_net_bps: Num,
}

/// How a past entry ended.
#[derive(Debug, Clone, Copy, PartialEq, Eq, Structural)]
pub enum Ending {
    Win,
    Loss,
    Timeout,
}

/// The barriers of an entry and its costs.
#[derive(Debug, Clone, Copy, PartialEq, Eq, Structural)]
pub struct Plan {
    pub target: Num,
    pub stop: Num,
    pub slip_bps: Num,
}

/// The entry and the barriers of a position opened at a quote.
pub open spec fn plan_at(
    direction: Seq<char>,
    bid: Num,
    ask: Num,
    target_move: Num,
    stop_move: Num,
    slip_bps: Num,
) -> (Num, Plan) {
    let entry = paper::spec_entry_fill(direction, bid, ask, slip_bps);
    let sign = if direction == "LONG"@ {
        Num::one()
    } else {
        Num::one().negated()
    };
    (
        entry,
        Plan {
            target: entry.times(Num::one().plus(sign.times(target_move))),
            stop: entry.times(Num::one().minus(sign.times(stop_move))),
            slip_bps,
        },
    )
}

/// The extremes of a window on the side on which the position is left.
pub open spec fn exit_extremes(b: Bucket, direction: Seq<char>) -> Option<(Num, Num)> {
    let (high, low) = if direction == "LONG"@ {
        (b.bid_high, b.bid_low)
    } else {
        (b.ask_high, b.ask_low)
    };
    if high is Some && low is Some {
        Some((high->0, low->0))
    } else {
        None
    }
}

/// How a window ends an entry, if it does. The order within a window is unknown: where both
/// barriers are reached it counts as a loss, at the adverse extreme.
pub open spec fn ended_by(b: Bucket, direction: Seq<char>, plan: Plan) -> Option<(Ending, Num)> {
    match exit_extremes(b, direction) {
        None => None,
        Some((top, bottom)) => {
            let high = paper::spec_exit_fill(direction, top, plan.slip_bps);
            let low = paper::spec_exit_fill(direction, bottom, plan.slip_bps);
            let long = direction == "LONG"@;
            let stop_hit = if long {
                low.le(plan.stop)
            } else {
                plan.stop.le(high)
            };
            let target_hit = if long {
                plan.target.le(high)
            } else {
                low.le(plan.target)
            };
            if stop_hit {
                Some(
                    (
                        Ending::Loss,
                        if long {
                            low
                        } else {
                            high
                        },
                    ),
                )
            } else if target_hit {
                Some((Ending::Win, plan.target))
            } else {
                None
            }
        },
    }
}

/// How an entry ends in windows `from` to `end`: by the first window that ends it, or by time.
pub open spec fn replayed(
    buckets: Seq<Bucket>,
    from: int,
    end: int,
    direction: Seq<char>,
    plan: Plan,
    timeout: Num,
) -> (Ending, Num)
    decreases end + 1 - from,
{
    if from > end {
        (Ending::Timeout, timeout)
    } else {
        match ended_by(buckets[from], direction, plan) {
            Some(ending) => ending,
            None => replayed(buckets, from + 1, end, direction, plan, timeout),
        }
    }
}

/// What became of a past entry, with its weight.
#[derive(Debug, Clone, Copy, PartialEq, Eq, Structural)]
pub struct Label {
    pub ending: Ending,
    pub net: Num,
    pub weight: Num,
}

/// What became of an entry at a window; none where its path is not complete.
pub open spec fn label_of(
    buckets: Seq<Bucket>,
    n: Neighbor,
    steps: int,
    direction: Seq<char>,
    target_move: Num,
    stop_move: Num,
    fee_bps: Num,
    slip_bps: Num,
) -> Option<Label> {
    let end = n.index + steps;
    let start = buckets[n.index as int];
    let mark = if direction == "LONG"@ {
        buckets[end].bid_price
    } else {
        buckets[end].ask_price
    };
    if end < buckets.len() && (forall|i: int|
        n.index <= i <= end ==> (#[trigger] buckets[i]).price is Some) && start.bid_price is Some
        && start.ask_price is Some && mark is Some {
        let (entry, plan) = plan_at(
            direction,
            start.bid_price->0,
            start.ask_price->0,
            target_move,
            stop_move,
            slip_bps,
        );
        let timeout = paper::spec_exit_fill(direction, mark->0, slip_bps);
        let (ending, exit) = replayed(buckets, n.index + 1, end, direction, plan, timeout);
        Some(
            Label {
                ending,
                net: paper::net_bps(direction, entry, exit, fee_bps),
                weight: n.weight,
            },
        )
    } else {
        None
    }
}

/// What became of entries, where that is known.
pub open spec fn labels(
    buckets: Seq<Bucket>,
    neighbors: Seq<Neighbor>,
    steps: int,
    direction: Seq<char>,
    target_move: Num,
    stop_move: Num,
    fee_bps: Num,
    slip_bps: Num,
) -> Seq<Label>
    decreases neighbors.len(),
{
    if neighbors.len() == 0 {
        Seq::empty()
    } else {
        let rest = labels(
            buckets,
            neighbors.drop_last(),
            steps,
            direction,
            target_move,
            stop_move,
            fee_bps,
            slip_bps,
        );
        match label_of(
            buckets,
            neighbors.last(),
            steps,
            direction,
            target_move,
            stop_move,
            fee_bps,
            slip_bps,
        ) {
            Some(label) => rest.push(label),
            None => rest,
        }
    }
}

/// Whether an entry reached its target with a gain.
pub open spec fn is_win(l: Label) -> bool {
    l.ending == Ending::Win && Num::zero().lt(l.net)
}

/// How many entries reached their target with a gain.
pub open spec fn win_count(s: Seq<Label>) -> nat
    decreases s.len(),
{
    if s.len() == 0 {
        0
    } else {
        win_count(s.drop_last()) + (if is_win(s.last()) {
            1nat
        } else {
            0nat
        })
    }
}

/// How many entries ran into their time limit.
pub open spec fn timeout_count(s: Seq<Label>) -> nat
    decreases s.len(),
{
    if s.len() == 0 {
        0
    } else {
        timeout_count(s.drop_last()) + (if s.last().ending == Ending::Timeout {
            1nat
        } else {
            0nat
        })
    }
}

/// The weights of entries.
pub open spec fn label_weights(s: Seq<Label>) -> Seq<Num> {
    Seq::new(s.len(), |i: int| s[i].weight)
}

/// The results of entries, each times its weight.
pub open spec fn weighted_nets(s: Seq<Label>) -> Seq<Num> {
    Seq::new(s.len(), |i: int| s[i].net.times(s[i].weight))
}

/// The sum of the weights of the entries that reached their target with a gain.
pub open spec fn win_weight(s: Seq<Label>) -> Num
    decreases s.len(),
{
    if s.len() == 0 {
        Num::zero()
    } else if is_win(s.last()) {
        win_weight(s.drop_last()).plus(s.last().weight)
    } else {
        win_weight(s.drop_last())
    }
}

/// The statistics of past entries.
pub open spec fn summary(s: Seq<Label>) -> BarrierStats {
    let weight = spec_total(label_weights(s));
    let wins = win_count(s);
    BarrierStats {
        samples: s.len() as usize,
        wins: wins as usize,
        losses: (s.len() - wins - timeout_count(s)) as usize,
        timeouts: timeout_count(s) as usize,
        weighted_strict_win_rate: if Num::zero().lt(weight) {
            win_weight(s).over(weight)
        } else {
            Num::zero()
        },
        wilson_lower_bound: paper::win_interval(wins as i64, s.len() as i64).0,
        expected_net_bps: if Num::zero().lt(weight) {
            spec_total(weighted_nets(s)).over(weight)
        } else {
            Num::zero()
        },
    }
}

/// How a window ends an entry, if it does.
fn end_by(b: &Bucket, direction: &str, plan: &Plan) -> (r: Option<(Ending, Num)>)
    ensures
        r == ended_by(*b, direction@, *plan),
{
    let long = text::same(direction, "LONG");
    let (top, bottom) = if long {
        (b.bid_high, b.bid_low)
    } else {
        (b.ask_high, b.ask_low)
    };
    match (top, bottom) {
        (Some(top), Some(bottom)) => {
            let high = paper::exit_fill(direction, top, plan.slip_bps);
            let low = paper::exit_fill(direction, bottom, plan.slip_bps);
            let (target_hit, stop_hit) = if long {
                (plan.target.le(high), low.le(plan.stop))
            } else {
                (low.le(plan.target), plan.stop.le(high))
            };
            if stop_hit {
                let exit = if long {
                    low
                } else {
                    high
                };
                Some((Ending::Loss, exit))
            } else if target_hit {
                Some((Ending::Win, plan.target))
            } else {
                None
            }
        },
        _ => None,
    }
}

/// What became of an entry at a window; none where its path is not complete.
fn label(
    buckets: &Vec<Bucket>,
    n: &Neighbor,
    steps: usize,
    direction: &str,
    target_move: Num,
    stop_move: Num,
    fee_bps: Num,
    slip_bps: Num,
) -> (r: Option<Label>)
    requires
        n.index < buckets.len(),
    ensures
        r == label_of(
            buckets@,
            *n,
            steps as int,
            direction@,
            target_move,
            stop_move,
            fee_bps,
            slip_bps,
        ),
{
    if steps >= buckets.len() - n.index {
        return None;
    }
    let end = n.index + steps;
    let mut i: usize = n.index;
    while i <= end
        invariant
            n.index <= i <= end + 1,
            end < buckets.len(),
            forall|j: int| n.index <= j < i ==> (#[trigger] buckets@[j]).price is Some,
            end == n.index + steps,
        decreases end + 1 - i,
    {
        // Future paths are never made up across an outage.
        if buckets[i].price.is_none() {
            assert(buckets@[i as int].price is None);
            return None;
        }
        i += 1;
    }
    let start = buckets[n.index];
    let long = text::same(direction, "LONG");
    let mark = if long {
        buckets[end].bid_price
    } else {
        buckets[end].ask_price
    };
    match (start.bid_price, start.ask_price, mark) {
        (Some(bid), Some(ask), Some(mark)) => {
            let entry = paper::entry_fill(direction, bid, ask, slip_bps);
            let sign = if long {
                Num::one()
            } else {
                Num::one().negated()
            };
            let plan = Plan {
                target: entry.times(Num::one().plus(sign.times(target_move))),
                stop: entry.times(Num::one().minus(sign.times(stop_move))),
                slip_bps,
            };
            let timeout = paper::exit_fill(direction, mark, slip_bps);
            let mut ending = (Ending::Timeout, timeout);
            let ghost goal = replayed(
                buckets@,
                n.index + 1,
                end as int,
                direction@,
                plan,
                timeout,
            );
            let mut k: usize = n.index + 1;
            let mut open = true;
            while open && k <= end
                invariant
                    n.index + 1 <= k <= end + 1,
                    end < buckets.len(),
                    open ==> goal == replayed(
                        buckets@,
                        k as int,
                        end as int,
                        direction@,
                        plan,
                        timeout,
                    ) && ending == (Ending::Timeout, timeout),
                    !open ==> ending == goal,
                decreases end + 1 - k,
            {
                if let Some(found) = end_by(&buckets[k], direction, &plan) {
                    ending = found;
                    open = false;
                }
                k += 1;
            }
            let (_, net) = paper::pnl(direction, entry, ending.1, fee_bps);
            Some(Label { ending: ending.0, net, weight: n.weight })
        },
        _ => None,
    }
}

proof fn lemma_label_counts(s: Seq<Label>)
    ensures
        win_count(s) + timeout_count(s) <= s.len(),
    decreases s.len(),
{
    if s.len() > 0 {
        lemma_label_counts(s.drop_last());
    }
}

/// The statistics of past entries at the given windows, with the barriers and costs of the
/// present one. Entries whose path is not complete do not count.
pub fn barrier_stats(
    buckets: &Vec<Bucket>,
    neighbors: &Vec<Neighbor>,
    horizon_steps: usize,
    direction: &str,
    target_move: Num,
    stop_move: Num,
    fee_bps: Num,
    slip_bps: Num,
) -> (r: BarrierStats)
    requires
        forall|i: int|
            0 <= i < neighbors@.len() ==> (#[trigger] neighbors@[i]).index < buckets@.len(),
    ensures
        r == summary(
            labels(
                buckets@,
                neighbors@,
                horizon_steps as int,
                direction@,
                target_move,
                stop_move,
                fee_bps,
                slip_bps,
            ),
        ),
{
    let ghost all = neighbors@;
    let mut known: Vec<Label> = Vec::new();
    assert(all.take(0) =~= Seq::<Neighbor>::empty());
    for n in 0..neighbors.len()
        invariant
            all == neighbors@,
            forall|i: int|
                0 <= i < neighbors@.len() ==> (#[trigger] neighbors@[i]).index < buckets@.len(),
            known@ == labels(
                buckets@,
                all.take(n as int),
                horizon_steps as int,
                direction@,
                target_move,
                stop_move,
                fee_bps,
                slip_bps,
            ),
    {
        assert(all.take(n + 1).drop_last() =~= all.take(n as int));
        assert(all.take(n + 1).last() == all[n as int]);
        assert(all[n as int].index < buckets@.len());
        if let Some(l) = label(
            buckets,
            &neighbors[n],
            horizon_steps,
            direction,
            target_move,
            stop_move,
            fee_bps,
            slip_bps,
        ) {
            known.push(l);
        }
    }
    assert(all.take(all.len() as int) =~= all);
    let ghost s = known@;
    let mut wins: usize = 0;
    let mut timeouts: usize = 0;
    let mut gained = Num::zero();
    let mut heavy: Vec<Num> = Vec::new();
    let mut nets: Vec<Num> = Vec::new();
    assert(s.take(0) =~= Seq::<Label>::empty());
    for n in 0..known.len()
        invariant
            s == known@,
            wins == win_count(s.take(n as int)),
            timeouts == timeout_count(s.take(n as int)),
            wins <= n,
            timeouts <= n,
            gained == win_weight(s.take(n as int)),
            heavy@ == label_weights(s).take(n as int),
            nets@ == weighted_nets(s).take(n as int),
    {
        let l = known[n];
        assert(s.take(n + 1).drop_last() =~= s.take(n as int));
        assert(s.take(n + 1).last() == l);
        heavy.push(l.weight);
        nets.push(l.net.times(l.weight));
        assert(heavy@ =~= label_weights(s).take(n + 1));
        assert(nets@ =~= weighted_nets(s).take(n + 1));
        if l.ending == Ending::Win && Num::zero().lt(l.net) {
            wins += 1;
            gained = gained.plus(l.weight);
        } else if l.ending == Ending::Timeout {
            timeouts += 1;
        }
    }
    assert(s.take(s.len() as int) =~= s);
    assert(heavy@ =~= label_weights(s));
    assert(nets@ =~= weighted_nets(s));
    proof {
        lemma_label_counts(s);
    }
    let samples = known.len();
    let total_weight = total(&heavy);
    let rated = Num::zero().lt(total_weight);
    BarrierStats {
        samples,
        wins,
        losses: samples - wins - timeouts,
        timeouts,
        weighted_strict_win_rate: if rated {
            gained.over(total_weight)
        } else {
            Num::zero()
        },
        wilson_lower_bound: paper::win_interval(wins as i64, samples as i64).0,
        expected_net_bps: if rated {
            total(&nets).over(total_weight)
        } else {
            Num::zero()
        },
    }
}

/// How a window ends a replayed entry, by the quotes of the side on which it is left: bids for a
/// long entry, asks for a short one. A fill at the stop or beyond is a loss, at that fill, whatever
/// else the window shows; a fill at the target or beyond alone is a win, at the target.
pub proof fn lemma_replay_ends(b: Bucket, direction: Seq<char>, plan: Plan)
    requires
        direction == "LONG"@ || direction == "SHORT"@,
    ensures
        ({
            let r = ended_by(b, direction, plan);
            let bid_low = paper::spec_exit_fill(direction, b.bid_low->0, plan.slip_bps);
            let bid_high = paper::spec_exit_fill(direction, b.bid_high->0, plan.slip_bps);
            let ask_low = paper::spec_exit_fill(direction, b.ask_low->0, plan.slip_bps);
            let ask_high = paper::spec_exit_fill(direction, b.ask_high->0, plan.slip_bps);
            &&& direction == "LONG"@ && b.bid_low is Some && b.bid_high is Some ==> {
                &&& bid_low.le(plan.stop) ==> r == Some((Ending::Loss, bid_low))
                &&& !bid_low.le(plan.stop) && plan.target.le(bid_high) ==> r == Some(
                    (Ending::Win, plan.target),
                )
                &&& !bid_low.le(plan.stop) && !plan.target.le(bid_high) ==> r is None
            }
            &&& direction == "SHORT"@ && b.ask_low is Some && b.ask_high is Some ==> {
                &&& plan.stop.le(ask_high) ==> r == Some((Ending::Loss, ask_high))
                &&& !plan.stop.le(ask_high) && ask_low.le(plan.target) ==> r == Some(
                    (Ending::Win, plan.target),
                )
                &&& !plan.stop.le(ask_high) && !ask_low.le(plan.target) ==> r is None
            }
        }),
{
    reveal_strlit("LONG");
    reveal_strlit("SHORT");
    assert("LONG"@.len() != "SHORT"@.len());
}

/// A replayed entry ends by the first window that ends it, and by time where none does.
pub proof fn lemma_replay_ends_first(
    buckets: Seq<Bucket>,
    from: int,
    k: int,
    end: int,
    direction: Seq<char>,
    plan: Plan,
    timeout: Num,
)
    requires
        from <= k <= end + 1,
        forall|i: int| from <= i < k ==> ended_by(#[trigger] buckets[i], direction, plan) is None,
    ensures
        k <= end && ended_by(buckets[k], direction, plan) is Some ==> replayed(
            buckets,
            from,
            end,
            direction,
            plan,
            timeout,
        ) == ended_by(buckets[k], direction, plan)->0,
        k == end + 1 ==> replayed(buckets, from, end, direction, plan, timeout) == (
            Ending::Timeout,
            timeout,
        ),
    decreases k - from,
{
    if from < k {
        assert(ended_by(buckets[from], direction, plan) is None);
        lemma_replay_ends_first(buckets, from + 1, k, end, direction, plan, timeout);
    }
}

/// The barriers of a replayed entry lie on their own sides of it, as those of a new position do.
pub proof fn lemma_replay_sides(
    direction: Seq<char>,
    bid: Num,
    ask: Num,
    target_move: Num,
    stop_move: Num,
    slip_bps: Num,
)
    requires
        direction == "LONG"@ || direction == "SHORT"@,
        bid.is_positive(),
        ask.is_positive(),
        Num::zero().le(slip_bps),
        plan_at(direction, bid, ask, target_move, stop_move, slip_bps).0.is_positive(),
        Num::zero().lt(target_move),
        Num::zero().lt(stop_move),
    ensures
        ({
            let (entry, plan) = plan_at(direction, bid, ask, target_move, stop_move, slip_bps);
            &&& plan.slip_bps == slip_bps
            &&& direction == "LONG"@ ==> ask.le(entry) && plan.stop.le(entry) && entry.le(
                plan.target,
            )
            &&& direction == "SHORT"@ ==> entry.le(bid) && plan.target.le(entry) && entry.le(
                plan.stop,
            )
        }),
{
    reveal_strlit("LONG");
    reveal_strlit("SHORT");
    assert("LONG"@.len() != "SHORT"@.len());
    let (entry, plan) = plan_at(direction, bid, ask, target_move, stop_move, slip_bps);
    let one = Num::one();
    paper::lemma_entry_slippage_is_adverse(bid, ask, slip_bps);
    order::lemma_times_one(target_move);
    order::lemma_times_one(stop_move);
    laws::lemma_negated_twice(stop_move);
    laws::lemma_plus_grows(one, target_move);
    laws::lemma_plus_grows(one, stop_move);
    laws::lemma_minus_shrinks(one, target_move);
    laws::lemma_minus_shrinks(one, stop_move);
    laws::lemma_times_grows(entry, one.plus(target_move));
    laws::lemma_times_grows(entry, one.plus(stop_move));
    laws::lemma_times_shrinks(entry, one.minus(target_move));
    laws::lemma_times_shrinks(entry, one.minus(stop_move));
}

/// A replay counts as a win only with its target reached and a gain after costs; every other one is
/// a time limit or a loss, and none is left out.
pub proof fn lemma_replays_are_counted(s: Seq<Label>, l: Label)
    requires
        s.len() < 0x7FFF_FFFF,
    ensures
        ({
            let a = summary(s);
            let b = summary(s.push(l));
            let win = l.ending == Ending::Win && Num::zero().lt(l.net);
            let late = l.ending == Ending::Timeout;
            &&& b.samples == a.samples + 1
            &&& b.wins == a.wins + (if win {
                1int
            } else {
                0int
            })
            &&& b.timeouts == a.timeouts + (if late {
                1int
            } else {
                0int
            })
            &&& b.losses == a.losses + (if !win && !late {
                1int
            } else {
                0int
            })
            &&& b.wins + b.losses + b.timeouts == b.samples
            &&& b.wilson_lower_bound == paper::win_interval(b.wins as i64, b.samples as i64).0
        }),
{
    assert(s.push(l).drop_last() =~= s);
    lemma_label_counts(s);
}

/// Analogs come nearest first.
pub proof fn lemma_nearest_first(list: Seq<Candidate>, separation: int, most: int)
    ensures
        ({
            let s = chosen(by_distance(list), separation, most);
            forall|i: int, j: int|
                0 <= i < j < s.len() ==> !(#[trigger] s[j]).distance.lt(
                    (#[trigger] s[i]).distance,
                )
        }),
{
    lemma_by_distance_in_order(list);
    lemma_chosen_in_order(by_distance(list), separation, most);
    let s = chosen(by_distance(list), separation, most);
    assert forall|i: int, j: int| 0 <= i < j < s.len() implies !(#[trigger] s[j]).distance.lt(
        (#[trigger] s[i]).distance,
    ) by {
        assert(order_of(s[i].distance) <= order_of(s[j].distance));
    }
}

proof fn lemma_sorted_in_order(s: Seq<Candidate>, c: Candidate)
    requires
        in_distance_order(s),
    ensures
        in_distance_order(sorted_in(s, c)),
        forall|i: int|
            0 <= i < sorted_in(s, c).len() ==> order_of(
                (#[trigger] sorted_in(s, c)[i]).distance,
            ) <= order_of(c.distance) || (s.len() > 0 && order_of(sorted_in(s, c)[i].distance)
                <= order_of(s.last().distance)),
    decreases s.len(),
{
    let t = sorted_in(s, c);
    if s.len() > 0 && order_of(s.last().distance) > order_of(c.distance) {
        let rest = s.drop_last();
        assert forall|i: int, j: int| 0 <= i < j < rest.len() implies order_of(
            (#[trigger] rest[i]).distance,
        ) <= order_of((#[trigger] rest[j]).distance) by {
            assert(rest[i] == s[i] && rest[j] == s[j]);
        }
        lemma_sorted_in_order(rest, c);
        let r = sorted_in(rest, c);
        assert(t == r.push(s.last()));
        if rest.len() > 0 {
            assert(s[rest.len() - 1] == rest.last());
            assert(order_of(s[rest.len() - 1].distance) <= order_of(s[s.len() - 1].distance));
        }
        assert forall|i: int, j: int| 0 <= i < j < t.len() implies order_of(
            (#[trigger] t[i]).distance,
        ) <= order_of((#[trigger] t[j]).distance) by {
            assert(t[i] == r[i]);
            if j < r.len() {
                assert(t[j] == r[j]);
            }
        }
        assert forall|i: int| 0 <= i < t.len() implies order_of((#[trigger] t[i]).distance)
            <= order_of(c.distance) || (s.len() > 0 && order_of(t[i].distance) <= order_of(
            s.last().distance,
        )) by {
            if i < r.len() {
                assert(t[i] == r[i]);
            }
        }
    } else {
        assert forall|i: int, j: int| 0 <= i < j < t.len() implies order_of(
            (#[trigger] t[i]).distance,
        ) <= order_of((#[trigger] t[j]).distance) by {
            assert(t[i] == s[i]);
            if j < s.len() {
                assert(t[j] == s[j]);
            } else if i < s.len() - 1 {
                assert(order_of(s[i].distance) <= order_of(s[s.len() - 1].distance));
            }
        }
        assert forall|i: int| 0 <= i < t.len() implies order_of((#[trigger] t[i]).distance)
            <= order_of(c.distance) || (s.len() > 0 && order_of(t[i].distance) <= order_of(
            s.last().distance,
        )) by {
            if i < s.len() - 1 {
                assert(t[i] == s[i]);
                assert(order_of(s[i].distance) <= order_of(s[s.len() - 1].distance));
            }
        }
    }
}

proof fn lemma_by_distance_in_order(list: Seq<Candidate>)
    ensures
        in_distance_order(by_distance(list)),
    decreases list.len(),
{
    if list.len() > 0 {
        lemma_by_distance_in_order(list.drop_last());
        lemma_sorted_in_order(by_distance(list.drop_last()), list.last());
    }
}

proof fn lemma_chosen_in_order(s: Seq<Candidate>, separation: int, most: int)
    requires
        in_distance_order(s),
    ensures
        in_distance_order(chosen(s, separation, most)),
        forall|i: int|
            0 <= i < chosen(s, separation, most).len() ==> order_of(
                (#[trigger] chosen(s, separation, most)[i]).distance,
            ) <= order_of(s.last().distance),
    decreases s.len(),
{
    if s.len() > 0 {
        let rest = s.drop_last();
        assert forall|i: int, j: int| 0 <= i < j < rest.len() implies order_of(
            (#[trigger] rest[i]).distance,
        ) <= order_of((#[trigger] rest[j]).distance) by {
            assert(rest[i] == s[i] && rest[j] == s[j]);
        }
        lemma_chosen_in_order(rest, separation, most);
        let r = chosen(rest, separation, most);
        let t = chosen(s, separation, most);
        if rest.len() > 0 {
            assert(rest.last() == s[rest.len() - 1]);
            assert(order_of(s[rest.len() - 1].distance) <= order_of(s[s.len() - 1].distance));
        }
        assert forall|i: int| 0 <= i < t.len() implies order_of((#[trigger] t[i]).distance)
            <= order_of(s.last().distance) by {
            if i < r.len() {
                assert(t[i] == r[i]);
            }
        }
        assert forall|i: int, j: int| 0 <= i < j < t.len() implies order_of(
            (#[trigger] t[i]).distance,
        ) <= order_of((#[trigger] t[j]).distance) by {
            assert(t[i] == r[i]);
            if j < r.len() {
                assert(t[j] == r[j]);
            }
        }
    }
}

/// What a replay of an entry takes: the quote of its window to enter at, a price in every window up
/// to its last one, and there the bid for a long entry or the ask for a short one to leave at. It
/// keeps the weight of its analog, and its result is after costs.
pub proof fn lemma_replay_takes(
    buckets: Seq<Bucket>,
    n: Neighbor,
    steps: int,
    direction: Seq<char>,
    target_move: Num,
    stop_move: Num,
    fee_bps: Num,
    slip_bps: Num,
)
    requires
        direction == "LONG"@ || direction == "SHORT"@,
    ensures
        ({
            let r = label_of(
                buckets,
                n,
                steps,
                direction,
                target_move,
                stop_move,
                fee_bps,
                slip_bps,
            );
            let end = n.index + steps;
            let start = buckets[n.index as int];
            let bid = start.bid_price->0;
            let ask = start.ask_price->0;
            let left_at = if direction == "LONG"@ {
                buckets[end].bid_price
            } else {
                buckets[end].ask_price
            };
            let whole = forall|i: int|
                n.index <= i <= end ==> (#[trigger] buckets[i]).price is Some;
            let (entry, plan) = plan_at(direction, bid, ask, target_move, stop_move, slip_bps);
            let timeout = paper::spec_exit_fill(direction, left_at->0, slip_bps);
            let (ending, exit) = replayed(buckets, n.index + 1, end, direction, plan, timeout);
            &&& r is Some <==> end < buckets.len() && whole && start.bid_price is Some
                && start.ask_price is Some && left_at is Some
            &&& r is Some ==> {
                &&& r->0.ending == ending
                &&& r->0.net == paper::net_bps(direction, entry, exit, fee_bps)
                &&& r->0.weight == n.weight
            }
        }),
{
}

/// The nearer an analog, the heavier: of two distances from zero on, the smaller weighs no less.
pub proof fn lemma_nearer_weighs_more(a: Candidate, b: Candidate, steps: int, future: Seq<Num>)
    requires
        Num::zero().le(a.distance),
        a.distance.le(b.distance),
        b.distance.is_finite(),
    ensures
        neighbor_of(b, steps, future).weight.le(neighbor_of(a, steps, future).weight),
        neighbor_of(a, steps, future).index == a.index,
{
    let fifth = Num::ratio(20, 100);
    order::lemma_ratio_order(20, 100, 20, 100);
    laws::lemma_plus_grows(fifth, a.distance);
    laws::lemma_plus_grows(fifth, b.distance);
    order::lemma_plus_monotone(fifth, a.distance, b.distance);
    order::lemma_over_antitone(Num::one(), fifth.plus(a.distance), fifth.plus(b.distance));
}

proof fn lemma_sorted_contains(s: Seq<Candidate>, c: Candidate, x: Candidate)
    ensures
        sorted_in(s, c).contains(x) <==> s.contains(x) || x == c,
    decreases s.len(),
{
    let t = sorted_in(s, c);
    if s.len() > 0 && order_of(s.last().distance) > order_of(c.distance) {
        let rest = s.drop_last();
        lemma_sorted_contains(rest, c, x);
        let r = sorted_in(rest, c);
        lemma_push_contains(r, s.last(), x);
        lemma_push_contains(rest, s.last(), x);
        assert(rest.push(s.last()) =~= s);
    } else {
        lemma_push_contains(s, c, x);
    }
}

proof fn lemma_push_contains(s: Seq<Candidate>, c: Candidate, x: Candidate)
    ensures
        s.push(c).contains(x) <==> s.contains(x) || x == c,
{
    let t = s.push(c);
    if s.contains(x) {
        let i = choose|i: int| 0 <= i < s.len() && s[i] == x;
        assert(t[i] == x);
    }
    assert(t[s.len() as int] == c);
    if t.contains(x) && x != c {
        let i = choose|i: int| 0 <= i < t.len() && t[i] == x;
        assert(s[i] == x);
    }
}

proof fn lemma_by_distance_contains(s: Seq<Candidate>, x: Candidate)
    ensures
        by_distance(s).contains(x) <==> s.contains(x),
    decreases s.len(),
{
    if s.len() > 0 {
        let rest = s.drop_last();
        lemma_by_distance_contains(rest, x);
        lemma_sorted_contains(by_distance(rest), s.last(), x);
        lemma_push_contains(rest, s.last(), x);
        assert(rest.push(s.last()) =~= s);
    }
}

proof fn lemma_candidates_contain(
    buckets: Seq<Bucket>,
    features: Seq<Option<Feature>>,
    end: int,
    steps: int,
    current: Feature,
    x: Candidate,
)
    requires
        end <= usize::MAX,
    ensures
        candidates(buckets, features, end, steps, current).contains(x) <==> {
            &&& 60 <= x.index < end
            &&& is_candidate(buckets, features, x.index as int, steps)
            &&& x.distance == distance(current, features[x.index as int]->0)
        },
    decreases end,
{
    if end > 60 {
        let rest = candidates(buckets, features, end - 1, steps, current);
        lemma_candidates_contain(buckets, features, end - 1, steps, current, x);
        let c = Candidate {
            distance: distance(current, features[end - 1]->0),
            index: (end - 1) as usize,
        };
        lemma_push_contains(rest, c, x);
    }
}

proof fn lemma_chosen_contains(s: Seq<Candidate>, separation: int, most: int, x: Candidate)
    requires
        in_distance_order(s),
    ensures
        ({
            let t = chosen(s, separation, most);
            &&& t.contains(x) ==> s.contains(x)
            &&& s.contains(x) && !t.contains(x) ==> {
                ||| t.len() > 0 && t.len() >= most
                ||| exists|j: int|
                    0 <= j < t.len() && !apart(
                        (#[trigger] t[j]).index as int,
                        x.index as int,
                        separation,
                    ) && order_of(t[j].distance) <= order_of(x.distance)
            }
        }),
    decreases s.len(),
{
    if s.len() > 0 {
        let rest = s.drop_last();
        assert forall|i: int, j: int| 0 <= i < j < rest.len() implies order_of(
            (#[trigger] rest[i]).distance,
        ) <= order_of((#[trigger] rest[j]).distance) by {
            assert(rest[i] == s[i] && rest[j] == s[j]);
        }
        lemma_chosen_contains(rest, separation, most, x);
        lemma_chosen_in_order(rest, separation, most);
        let r = chosen(rest, separation, most);
        let t = chosen(s, separation, most);
        lemma_push_contains(rest, s.last(), x);
        assert(rest.push(s.last()) =~= s);
        lemma_push_contains(r, s.last(), x);
        if s.contains(x) && !t.contains(x) {
            if rest.contains(x) && !r.contains(x) {
                if !(r.len() > 0 && r.len() >= most) {
                    let j = choose|j: int|
                        0 <= j < r.len() && !apart(
                            (#[trigger] r[j]).index as int,
                            x.index as int,
                            separation,
                        ) && order_of(r[j].distance) <= order_of(x.distance);
                    assert(t[j] == r[j]);
                }
            } else {
                assert(x == s.last() && t == r);
                if !(r.len() > 0 && r.len() >= most) {
                    let j = choose|j: int|
                        0 <= j < r.len() && !apart(
                            (#[trigger] r[j]).index as int,
                            x.index as int,
                            separation,
                        );
                    assert(rest.len() > 0);
                    assert(order_of(s[rest.len() - 1].distance) <= order_of(
                        s[s.len() - 1].distance,
                    ));
                    assert(order_of(r[j].distance) <= order_of(rest.last().distance));
                    assert(t[j] == r[j]);
                }
            }
        }
    }
}

/// Whether values are the logarithms of how prices changed over `lag` windows, for a logarithm.
pub open spec fn tells_changes(
    values: Seq<Num>,
    buckets: Seq<Bucket>,
    lag: int,
    log: spec_fn(Num) -> Num,
) -> bool {
    values.len() == buckets.len() && forall|i: int|
        lag <= i < buckets.len() && buckets[i].price is Some && buckets[i - lag].price is Some
            ==> #[trigger] values[i] == log(
            buckets[i].price->0.over(buckets[i - lag].price->0),
        )
}

/// An analog is a state of the past with what came of it: it has a feature, prices throughout its
/// outcome, the change of price from its own window to the end of its outcome as its return, and a
/// weight by how far its state was from the present one.
pub proof fn lemma_analogs_happened(
    buckets: Seq<Bucket>,
    features: Seq<Option<Feature>>,
    current_index: int,
    steps: int,
    current: Feature,
    most: int,
    future: Seq<Num>,
    log: spec_fn(Num) -> Num,
    i: int,
)
    requires
        0 <= steps,
        current_index <= buckets.len() <= usize::MAX,
        tells_changes(future, buckets, steps, log),
        0 <= i < evidence(buckets, features, current_index, steps, current, most, future).len(),
    ensures
        ({
            let n = evidence(buckets, features, current_index, steps, current, most, future)[i];
            let at = n.index as int;
            &&& features[at] is Some
            &&& forall|k: int| at <= k <= at + steps ==> (#[trigger] buckets[k]).price is Some
            &&& n.future_return == log(buckets[at + steps].price->0.over(buckets[at].price->0))
            &&& n.weight == Num::one().over(
                Num::ratio(20, 100).plus(distance(current, features[at]->0)),
            )
        }),
{
    let latest = current_index - steps - 60;
    let all = candidates(buckets, features, latest, steps, current);
    let near = by_distance(all);
    let picked = chosen(near, steps + 60, most);
    let c = picked[i];
    lemma_by_distance_in_order(all);
    assert(picked.contains(c));
    lemma_chosen_contains(near, steps + 60, most, c);
    lemma_by_distance_contains(all, c);
    lemma_candidates_contain(buckets, features, latest, steps, current, c);
    let at = c.index as int;
    assert(buckets[at].price is Some && buckets[at + steps].price is Some);
    assert(future[at + steps] == log(buckets[at + steps].price->0.over(buckets[at].price->0)));
}

/// No window of the past is passed over: one whose outcome is known is an analog itself, unless
/// there are as many as there may be, or one whose windows would overlap is no farther away.
pub proof fn lemma_no_window_is_passed_over(
    buckets: Seq<Bucket>,
    features: Seq<Option<Feature>>,
    current_index: int,
    steps: int,
    current: Feature,
    most: int,
    future: Seq<Num>,
    at: int,
)
    requires
        0 <= steps,
        current_index <= buckets.len() <= usize::MAX,
        60 <= at,
        at + steps < current_index - 60,
        features[at] is Some,
        forall|k: int| at <= k <= at + steps ==> (#[trigger] buckets[k]).price is Some,
        Num::zero().lt(buckets[at].price->0),
        Num::zero().lt(buckets[at + steps].price->0),
    ensures
        ({
            let s = evidence(buckets, features, current_index, steps, current, most, future);
            ||| s.len() > 0 && s.len() >= most
            ||| exists|j: int|
                0 <= j < s.len() && {
                    let other = (#[trigger] s[j]).index as int;
                    &&& other == at || (at - steps - 60 < other && other < at + steps + 60)
                    &&& !distance(current, features[at]->0).lt(
                        distance(current, features[other]->0),
                    )
                }
        }),
{
    let latest = current_index - steps - 60;
    let all = candidates(buckets, features, latest, steps, current);
    let near = by_distance(all);
    let picked = chosen(near, steps + 60, most);
    let s = evidence(buckets, features, current_index, steps, current, most, future);
    let c = Candidate { distance: distance(current, features[at]->0), index: at as usize };
    lemma_by_distance_in_order(all);
    lemma_candidates_contain(buckets, features, latest, steps, current, c);
    lemma_by_distance_contains(all, c);
    lemma_chosen_contains(near, steps + 60, most, c);
    if !(s.len() > 0 && s.len() >= most) {
        let j = if picked.contains(c) {
            choose|j: int| 0 <= j < picked.len() && picked[j] == c
        } else {
            choose|j: int|
                0 <= j < picked.len() && !apart(
                    (#[trigger] picked[j]).index as int,
                    at,
                    steps + 60,
                ) && order_of(picked[j].distance) <= order_of(c.distance)
        };
        let d = picked[j];
        assert(picked.contains(d));
        lemma_chosen_contains(near, steps + 60, most, d);
        lemma_by_distance_contains(all, d);
        lemma_candidates_contain(buckets, features, latest, steps, current, d);
        assert(s[j].index == d.index);
    }
}

} // verus!
