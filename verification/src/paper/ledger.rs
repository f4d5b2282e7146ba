//! The closed positions of an account in the order of their exits, and what they add up to.

use crate::model::{Prediction, PredictionView};
use crate::num::laws;
use crate::num::order;
use crate::num::Num;
use crate::text;
use vstd::prelude::*;

verus! {

/// The views of borrowed positions.
pub open spec fn ref_views(items: Seq<&Prediction>) -> Seq<PredictionView> {
    Seq::new(items.len(), |i: int| items[i]@)
}

/// Whether a position is still open.
pub open spec fn is_open(p: PredictionView) -> bool {
    p.status == "OPEN"@
}

/// Whether `a` closed after `b`: by the time of the exit, a missing time first, and by the
/// identifier among exits of one time.
pub open spec fn exits_after(a: PredictionView, b: PredictionView) -> bool {
    match (a.resolved_at, b.resolved_at) {
        (Some(x), Some(y)) => x > y || (x == y && text::precedes(b.id, a.id)),
        (Some(_), None) => true,
        (None, Some(_)) => false,
        (None, None) => text::precedes(b.id, a.id),
    }
}

/// A list in exit order with one more position, behind all that do not close after it.
pub open spec fn placed(s: Seq<PredictionView>, p: PredictionView) -> Seq<PredictionView>
    decreases s.len(),
{
    if s.len() > 0 && exits_after(s.last(), p) {
        placed(s.drop_last(), p).push(s.last())
    } else {
        s.push(p)
    }
}

/// The closed positions in exit order.
pub open spec fn exit_order(items: Seq<PredictionView>) -> Seq<PredictionView>
    decreases items.len(),
{
    if items.len() == 0 {
        Seq::empty()
    } else {
        let rest = exit_order(items.drop_last());
        if is_open(items.last()) {
            rest
        } else {
            placed(rest, items.last())
        }
    }
}

/// Whether a list is in exit order.
pub open spec fn in_exit_order(s: Seq<PredictionView>) -> bool {
    forall|i: int, j: int| 0 <= i < j < s.len() ==> !exits_after(#[trigger] s[i], #[trigger] s[j])
}

/// How many positions satisfy a condition.
pub open spec fn tally(s: Seq<PredictionView>, holds: spec_fn(PredictionView) -> bool) -> nat
    decreases s.len(),
{
    if s.len() == 0 {
        0
    } else {
        tally(s.drop_last(), holds) + (if holds(s.last()) {
            1nat
        } else {
            0nat
        })
    }
}

/// The sum, from zero and in order, of an amount over the positions that satisfy a condition.
pub open spec fn summed(
    s: Seq<PredictionView>,
    holds: spec_fn(PredictionView) -> bool,
    amount: spec_fn(PredictionView) -> Num,
) -> Num
    decreases s.len(),
{
    if s.len() == 0 {
        Num::zero()
    } else {
        let rest = summed(s.drop_last(), holds, amount);
        if holds(s.last()) {
            rest.plus(amount(s.last()))
        } else {
            rest
        }
    }
}

/// The condition that a position has a known result.
pub open spec fn priced() -> spec_fn(PredictionView) -> bool {
    |p: PredictionView| p.pnl_bps is Some
}

/// The condition that the result of a position is not known.
pub open spec fn unpriced() -> spec_fn(PredictionView) -> bool {
    |p: PredictionView| p.pnl_bps is None
}

/// The condition that a position gained, by more than a millionth of a basis point.
pub open spec fn won() -> spec_fn(PredictionView) -> bool {
    |p: PredictionView| p.pnl_bps is Some && Num::ratio(1, 1_000_000).lt(p.pnl_bps->0)
}

/// The condition that a position lost, by more than a millionth of a basis point.
pub open spec fn lost() -> spec_fn(PredictionView) -> bool {
    |p: PredictionView|
        p.pnl_bps is Some && !Num::ratio(1, 1_000_000).lt(p.pnl_bps->0) && p.pnl_bps->0.lt(
            Num::ratio(1, 1_000_000).negated(),
        )
}

/// The condition that a position neither gained nor lost.
pub open spec fn flat() -> spec_fn(PredictionView) -> bool {
    |p: PredictionView| p.pnl_bps is Some && !won()(p) && !lost()(p)
}

/// The condition that a position ran into its time limit.
pub open spec fn timed_out() -> spec_fn(PredictionView) -> bool {
    |p: PredictionView| p.status == "TIMEOUT"@
}

/// The condition that a position reached its target with a gain.
pub open spec fn hit_target() -> spec_fn(PredictionView) -> bool {
    |p: PredictionView| p.pnl_bps is Some && p.status == "WIN"@ && Num::zero().lt(p.pnl_bps->0)
}

/// The condition that a position is open.
pub open spec fn held() -> spec_fn(PredictionView) -> bool {
    |p: PredictionView| is_open(p)
}

/// The condition that a position is open and has a mark.
pub open spec fn marked() -> spec_fn(PredictionView) -> bool {
    |p: PredictionView| is_open(p) && p.mark_price is Some
}

/// The condition that a position is open and has no mark.
pub open spec fn unmarked() -> spec_fn(PredictionView) -> bool {
    |p: PredictionView| is_open(p) && p.mark_price is None
}

/// The result of a position in basis points.
pub open spec fn bps() -> spec_fn(PredictionView) -> Num {
    |p: PredictionView| p.pnl_bps->0
}

/// The result of a position in the quote asset.
pub open spec fn amount(p: PredictionView) -> Num {
    p.notional.times(p.pnl_bps->0).over(Num::from_int(10_000))
}

/// The result of a position in the quote asset.
pub open spec fn gain() -> spec_fn(PredictionView) -> Num {
    |p: PredictionView| amount(p)
}

/// The loss of a position in the quote asset.
pub open spec fn loss() -> spec_fn(PredictionView) -> Num {
    |p: PredictionView| amount(p).negated()
}

/// The result that an open position would have at its mark, in the quote asset.
pub open spec fn mark_value() -> spec_fn(PredictionView) -> Num {
    |p: PredictionView|
        p.notional.times(
            super::net_bps(
                p.direction,
                p.entry_price,
                super::spec_exit_fill(p.direction, p.mark_price->0, p.slippage_bps),
                p.fee_bps,
            ),
        ).over(Num::from_int(10_000))
}

/// The balance of an account after closed positions.
pub open spec fn balance(s: Seq<PredictionView>, capital: Num) -> Num
    decreases s.len(),
{
    if s.len() == 0 {
        capital
    } else if priced()(s.last()) {
        balance(s.drop_last(), capital).plus(amount(s.last()))
    } else {
        balance(s.drop_last(), capital)
    }
}

/// The highest balance of an account.
pub open spec fn peak(s: Seq<PredictionView>, capital: Num) -> Num
    decreases s.len(),
{
    if s.len() == 0 {
        capital
    } else if priced()(s.last()) {
        peak(s.drop_last(), capital).larger(balance(s, capital))
    } else {
        peak(s.drop_last(), capital)
    }
}

/// The deepest fall of the balance from its highest value before, in percent of that value.
pub open spec fn drawdown(s: Seq<PredictionView>, capital: Num) -> Num
    decreases s.len(),
{
    if s.len() == 0 {
        Num::zero()
    } else {
        let rest = drawdown(s.drop_last(), capital);
        if priced()(s.last()) {
            let high = peak(s, capital);
            rest.larger(high.minus(balance(s, capital)).over(high).times(Num::from_int(100)))
        } else {
            rest
        }
    }
}

/// A condition holds of at most all positions.
pub proof fn lemma_tally_bounded(
    s: Seq<PredictionView>,
    holds: spec_fn(PredictionView) -> bool,
)
    ensures
        tally(s, holds) <= s.len(),
    decreases s.len(),
{
    if s.len() > 0 {
        lemma_tally_bounded(s.drop_last(), holds);
    }
}

/// One more position counts where the condition holds of it.
pub proof fn lemma_tally_push(
    s: Seq<PredictionView>,
    p: PredictionView,
    holds: spec_fn(PredictionView) -> bool,
)
    ensures
        tally(s.push(p), holds) == tally(s, holds) + (if holds(p) {
            1nat
        } else {
            0nat
        }),
        tally(s, holds) <= s.len(),
{
    assert(s.push(p).drop_last() =~= s);
    lemma_tally_bounded(s, holds);
}

/// Every closed position is a gain, a loss, neither, or of unknown result, and only one of these.
pub proof fn lemma_results_partition(s: Seq<PredictionView>)
    ensures
        s.len() == tally(s, won()) + tally(s, lost()) + tally(s, flat()) + tally(s, unpriced()),
    decreases s.len(),
{
    if s.len() > 0 {
        lemma_results_partition(s.drop_last());
    }
}

/// Placing a position adds one.
pub proof fn lemma_placed_len(s: Seq<PredictionView>, p: PredictionView)
    ensures
        placed(s, p).len() == s.len() + 1,
    decreases s.len(),
{
    if s.len() > 0 && exits_after(s.last(), p) {
        lemma_placed_len(s.drop_last(), p);
    }
}

/// Every position is open or among the closed ones, and only one of these.
pub proof fn lemma_open_or_closed(items: Seq<PredictionView>)
    ensures
        items.len() == exit_order(items).len() + tally(items, held()),
    decreases items.len(),
{
    if items.len() > 0 {
        lemma_open_or_closed(items.drop_last());
        if !is_open(items.last()) {
            lemma_placed_len(exit_order(items.drop_last()), items.last());
        }
    }
}

/// Every open position has a mark or none.
pub proof fn lemma_marked_or_not(items: Seq<PredictionView>)
    ensures
        tally(items, held()) == tally(items, marked()) + tally(items, unmarked()),
    decreases items.len(),
{
    if items.len() > 0 {
        lemma_marked_or_not(items.drop_last());
    }
}

/// The exit order is transitive: what does not close after `b`, which does not close after `c`,
/// does not close after `c`.
proof fn lemma_exit_order_transitive(a: PredictionView, b: PredictionView, c: PredictionView)
    requires
        exits_after(a, c),
    ensures
        exits_after(a, b) || exits_after(b, c),
{
    text::lemma_precedes_total(a.id, b.id);
    text::lemma_precedes_total(b.id, c.id);
    if text::precedes(a.id, b.id) && text::precedes(c.id, a.id) {
        text::lemma_precedes_transitive(c.id, a.id, b.id);
    }
    if text::precedes(b.id, c.id) && text::precedes(c.id, a.id) {
        text::lemma_precedes_transitive(b.id, c.id, a.id);
    }
}

/// No two positions close after each other.
proof fn lemma_exit_order_antisymmetric(a: PredictionView, b: PredictionView)
    requires
        exits_after(a, b),
    ensures
        !exits_after(b, a),
{
    if text::precedes(a.id, b.id) && text::precedes(b.id, a.id) {
        text::lemma_precedes_transitive(a.id, b.id, a.id);
        text::lemma_precedes_irreflexive(a.id);
    }
}

/// Where the new position goes in a list in exit order.
proof fn lemma_placed_at(s: Seq<PredictionView>, p: PredictionView, k: int)
    requires
        0 <= k <= s.len(),
        forall|i: int| k <= i < s.len() ==> exits_after(#[trigger] s[i], p),
        k > 0 ==> !exits_after(s[k - 1], p),
    ensures
        placed(s, p) == s.insert(k, p),
    decreases s.len(),
{
    if k == s.len() {
        assert(s.insert(k, p) =~= s.push(p));
    } else {
        assert forall|i: int| k <= i < s.drop_last().len() implies exits_after(
            #[trigger] s.drop_last()[i],
            p,
        ) by {
            assert(s.drop_last()[i] == s[i]);
        }
        lemma_placed_at(s.drop_last(), p, k);
        assert(exits_after(s[s.len() - 1], p));
        assert(s.drop_last().insert(k, p).push(s.last()) =~= s.insert(k, p));
    }
}

/// A list in exit order stays so with the new position in its place.
proof fn lemma_placed_in_order(s: Seq<PredictionView>, p: PredictionView, k: int)
    requires
        in_exit_order(s),
        0 <= k <= s.len(),
        forall|i: int| k <= i < s.len() ==> exits_after(#[trigger] s[i], p),
        forall|i: int| 0 <= i < k ==> !exits_after(#[trigger] s[i], p),
    ensures
        in_exit_order(s.insert(k, p)),
{
    let t = s.insert(k, p);
    assert forall|i: int, j: int| 0 <= i < j < t.len() implies !exits_after(
        #[trigger] t[i],
        #[trigger] t[j],
    ) by {
        if i < k && j < k {
            assert(t[i] == s[i] && t[j] == s[j]);
        } else if i < k && j == k {
            assert(t[i] == s[i]);
        } else if i < k {
            assert(t[i] == s[i] && t[j] == s[j - 1]);
        } else if i == k {
            assert(t[j] == s[j - 1]);
            lemma_exit_order_antisymmetric(s[j - 1], p);
        } else {
            assert(t[i] == s[i - 1] && t[j] == s[j - 1]);
        }
    }
}

/// Whether `a` closed after `b`.
fn closes_after(a: &Prediction, b: &Prediction) -> (r: bool)
    ensures
        r == exits_after(a@, b@),
{
    match (a.resolved_at, b.resolved_at) {
        (Some(x), Some(y)) => x > y || (x == y && text::before(b.id.as_str(), a.id.as_str())),
        (Some(_), None) => true,
        (None, Some(_)) => false,
        (None, None) => text::before(b.id.as_str(), a.id.as_str()),
    }
}

/// The closed positions in exit order.
pub fn closed<'a>(items: &[&'a Prediction]) -> (r: Vec<&'a Prediction>)
    ensures
        ref_views(r@) == exit_order(ref_views(items@)),
{
    let mut list: Vec<&'a Prediction> = Vec::new();
    let ghost all = ref_views(items@);
    assert(ref_views(list@) =~= exit_order(all.take(0)));
    for n in 0..items.len()
        invariant
            all == ref_views(items@),
            in_exit_order(ref_views(list@)),
            ref_views(list@) == exit_order(all.take(n as int)),
    {
        let p = items[n];
        assert(all.take(n + 1).drop_last() =~= all.take(n as int));
        assert(all.take(n + 1).last() == p@);
        if !text::same(p.status.as_str(), "OPEN") {
            let ghost s = ref_views(list@);
            let mut low: usize = 0;
            let mut high: usize = list.len();
            while low < high
                invariant
                    low <= high <= list.len(),
                    s == ref_views(list@),
                    in_exit_order(s),
                    forall|i: int| 0 <= i < low ==> !exits_after(#[trigger] s[i], p@),
                    forall|i: int| high <= i < s.len() ==> exits_after(#[trigger] s[i], p@),
                decreases high - low,
            {
                let mid = low + (high - low) / 2;
                assert(s[mid as int] == list@[mid as int]@);
                if closes_after(list[mid], p) {
                    assert forall|i: int| mid <= i < s.len() implies exits_after(
                        #[trigger] s[i],
                        p@,
                    ) by {
                        if i > mid {
                            lemma_exit_order_transitive(s[mid as int], s[i], p@);
                        }
                    }
                    high = mid;
                } else {
                    assert forall|i: int| 0 <= i < mid + 1 implies !exits_after(
                        #[trigger] s[i],
                        p@,
                    ) by {
                        if i < mid && exits_after(s[i], p@) {
                            lemma_exit_order_transitive(s[i], s[mid as int], p@);
                        }
                    }
                    low = mid + 1;
                }
            }
            proof {
                lemma_placed_at(s, p@, low as int);
                lemma_placed_in_order(s, p@, low as int);
            }
            list.insert(low, p);
            assert(ref_views(list@) =~= s.insert(low as int, p@));
        }
    }
    assert(all.take(all.len() as int) =~= all);
    list
}

/// What counts as a gain, a loss or neither: a result after fees above a millionth of a basis point,
/// one below minus that, and one between. A target counts as hit only with a gain.
pub proof fn lemma_results_mean(p: PredictionView)
    ensures
        ({
            let tiny = Num::ratio(1, 1_000_000);
            let net = p.pnl_bps->0;
            &&& won()(p) <==> p.pnl_bps is Some && tiny.lt(net)
            &&& lost()(p) <==> p.pnl_bps is Some && net.lt(tiny.negated())
            &&& flat()(p) <==> p.pnl_bps is Some && !tiny.lt(net) && !net.lt(tiny.negated())
            &&& unpriced()(p) <==> p.pnl_bps is None
            &&& hit_target()(p) <==> p.status == "WIN"@ && p.pnl_bps is Some && Num::zero().lt(
                net,
            )
            &&& timed_out()(p) <==> p.status == "TIMEOUT"@
            &&& gain()(p) == p.notional.times(net).over(Num::from_int(10_000))
            &&& loss()(p) == gain()(p).negated()
        }),
{
    order::lemma_ratio_order(1, 1_000_000, 1, 1_000_000);
    laws::lemma_signed(true, Num::ratio(1, 1_000_000).magnitude());
}

/// An open position with a mark is worth what it would bring if it were closed at the mark, after
/// slippage and fees; one that is closed is worth nothing more.
pub proof fn lemma_marks_are_worth_their_exit(p: PredictionView)
    ensures
        ({
            let exit = super::spec_exit_fill(p.direction, p.mark_price->0, p.slippage_bps);
            let closed = PredictionView {
                pnl_bps: Some(super::net_bps(p.direction, p.entry_price, exit, p.fee_bps)),
                ..p
            };
            &&& mark_value()(p) == gain()(closed)
            &&& marked()(p) <==> p.status == "OPEN"@ && p.mark_price is Some
            &&& unmarked()(p) <==> p.status == "OPEN"@ && p.mark_price is None
            &&& held()(p) <==> p.status == "OPEN"@
        }),
{
}

/// The highest balance is at least every balance that there was, and the deepest fall at least the
/// fall from the highest balance at any exit with a known result. Neither ever shrinks.
pub proof fn lemma_drawdown_covers_every_fall(
    s: Seq<PredictionView>,
    p: PredictionView,
    capital: Num,
)
    requires
        !capital.is_nan(),
        p.pnl_bps is Some,
    ensures
        ({
            let after = s.push(p);
            let money = p.notional.times(p.pnl_bps->0).over(Num::from_int(10_000));
            let now = balance(after, capital);
            let high = peak(after, capital);
            let fall = high.minus(now).over(high).times(Num::from_int(100));
            &&& now == balance(s, capital).plus(money)
            &&& !now.is_nan() ==> now.le(high)
            &&& peak(s, capital).le(high)
            &&& high == peak(s, capital) || high == now
            &&& !fall.is_nan() ==> fall.le(drawdown(after, capital))
            &&& drawdown(s, capital).le(drawdown(after, capital))
            &&& drawdown(after, capital) == drawdown(s, capital) || drawdown(after, capital)
                == fall
            &&& Num::zero().le(drawdown(s, capital))
        }),
{
    assert(s.push(p).drop_last() =~= s);
    lemma_peak_is_a_number(s, capital);
}

proof fn lemma_peak_is_a_number(s: Seq<PredictionView>, capital: Num)
    requires
        !capital.is_nan(),
    ensures
        !peak(s, capital).is_nan(),
        !drawdown(s, capital).is_nan(),
        Num::zero().le(drawdown(s, capital)),
    decreases s.len(),
{
    if s.len() > 0 {
        lemma_peak_is_a_number(s.drop_last(), capital);
    }
}

} // verus!
